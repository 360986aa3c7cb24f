//! The repository facade: the object store, refs, staging index and
//! configuration of one repository, with the operations the surface
//! offers — init, commit, merge, checkout, repack — as transitions of
//! that state. File reads and writes of the working tree are returned
//! as plans for the caller to apply.

use crate::ancestry::find_merge_base;
use crate::bytes::{bytes_eq, starts_with};
use crate::codec::{oid_spec, ObjType};
use crate::commitobj::{commit_payload, commit_tree, parse_commit_tree, write_commit};
use crate::config::Config;
use crate::errors::GitError;
use crate::hexcode::is_hex_lower;
use crate::index::{find_path, Index};
use crate::lits::{
    heads_prefix, heads_prefix_bytes, http_scheme, http_scheme_bytes, https_scheme,
    https_scheme_bytes, init_message, init_message_bytes, master_name, master_name_bytes,
    merge_msg_mid, merge_msg_mid_bytes, merge_msg_open, merge_msg_open_bytes, quote_mark,
    remote_section_open, symref_prefix, symref_prefix_bytes, url_key,
};
use crate::mergeeng::{
    conflict_ranges, file_at, get_files_from_commit, merge_conflict, merge_value, reconcile,
    views_of,
};
use crate::pack::{create_pack, pack_prefix};
use crate::refs::{
    create_branch, current_branch as refs_current_branch, find_ref, get_head_commit,
    head_commit_spec, read_ref_spec, RefStore,
};
use crate::sha::sha1_of;
use crate::store::{
    copy_bytes, find_rec, read_object, write_object, ObjRecord, ObjectStore,
};
use crate::tree::{lemma_tree_files_oids, tree_payload, write_tree, TreeFile, TreeFileV};
use vstd::prelude::*;

verus! {

/// A repository: its objects, refs and HEAD, staging index, and
/// configuration.
pub struct Repository {
    pub store: ObjectStore,
    pub refs: RefStore,
    pub index: Index,
    pub config: Config,
}

impl Repository {
    pub open spec fn wf(self) -> bool {
        self.store.wf() && self.refs.wf() && self.index.wf()
    }

    /// Initialize a repository: an attached HEAD on `master`, the
    /// canonical empty tree in the store, and a root commit on it.
    pub fn init(author: &[u8], timestamp: &[u8]) -> (r: Repository)
        ensures
            r.wf(),
            r.refs.head@ == symref_prefix() + heads_prefix() + master_name(),
            r.store.find(oid_spec(ObjType::Tree, Seq::<u8>::empty())) == Some(
                (ObjType::Tree, Seq::<u8>::empty()),
            ),
            ({
                let tree_oid = oid_spec(ObjType::Tree, Seq::<u8>::empty());
                let payload = commit_payload(
                    tree_oid,
                    Seq::<Seq<u8>>::empty(),
                    init_message(),
                    author@,
                    timestamp@,
                );
                let commit_oid = oid_spec(ObjType::Commit, payload);
                &&& find_ref(r.refs.entries@, heads_prefix() + master_name()) == Some(commit_oid)
                &&& (commit_oid != tree_oid ==> r.store.find(commit_oid) == Some(
                    (ObjType::Commit, payload),
                ))
            }),
            r.index@.len() == 0,
            r.config.data@.len() == 0,
    {
        let mut store = ObjectStore::new();
        let empty: Vec<u8> = Vec::new();
        proof {
            assert(empty@ =~= Seq::<u8>::empty());
        }
        let tree_oid = write_object(&mut store, empty.as_slice(), ObjType::Tree);
        let ghost s1 = store;
        proof {
            let co = oid_spec(
                ObjType::Commit,
                commit_payload(
                    oid_spec(ObjType::Tree, Seq::<u8>::empty()),
                    Seq::<Seq<u8>>::empty(),
                    init_message(),
                    author@,
                    timestamp@,
                ),
            );
            if co != tree_oid@ {
                assert(s1.loose@.len() == 1);
                assert(s1.loose@.last() == s1.loose@[0]);
                assert(s1.loose@[0].oid@ == tree_oid@);
                assert(s1.loose@.drop_first() =~= Seq::<ObjRecord>::empty());
                assert(find_rec(s1.loose@.drop_first(), co) is None);
                assert(find_rec(s1.loose@, co) == find_rec(s1.loose@.drop_first(), co));
                assert(find_rec(s1.loose@, co) is None);
                assert(find_rec(s1.packed@, co) is None);
            }
        }
        let msg = init_message_bytes();
        let parents: Vec<Vec<u8>> = Vec::new();
        proof {
            assert(parents@.map_values(|v: Vec<u8>| v@) =~= Seq::<Seq<u8>>::empty());
        }
        let commit_oid = write_commit(
            &mut store,
            tree_oid.as_slice(),
            &parents,
            msg.as_slice(),
            author,
            timestamp,
        );
        let mut head = symref_prefix_bytes();
        crate::bytes::append_bytes(&mut head, heads_prefix_bytes().as_slice());
        crate::bytes::append_bytes(&mut head, master_name_bytes().as_slice());
        let mut refs = RefStore { entries: Vec::new(), head };
        let mn = master_name_bytes();
        create_branch(&mut refs, mn.as_slice(), commit_oid.as_slice());
        Repository { store, refs, index: Index::new(), config: Config::new() }
    }

    /// The branch HEAD is attached to; `DetachedHead` otherwise.
    pub fn current_branch(&self) -> (r: Result<Vec<u8>, GitError>)
        ensures
            match r {
                Ok(v) => self.refs.head@.len() >= 16 && self.refs.head@.subrange(0, 16)
                    == symref_prefix() + heads_prefix() && v@ == self.refs.head@.skip(16),
                Err(e) => e == GitError::DetachedHead && !(self.refs.head@.len() >= 16
                    && self.refs.head@.subrange(0, 16) == symref_prefix() + heads_prefix()),
            },
    {
        refs_current_branch(&self.refs)
    }

    /// The file set of the commit HEAD points at; empty when HEAD or
    /// its tree cannot be followed.
    pub fn get_head_files(&self) -> (r: Vec<TreeFile>)
        ensures
            match head_commit_spec(self.refs) {
                Some(c) => match crate::mergeeng::files_of_commit(self.store, c) {
                    Some(fs) => views_of(r@) == fs,
                    None => r@.len() == 0,
                },
                None => r@.len() == 0,
            },
    {
        match get_head_commit(&self.refs) {
            Ok(c) => match get_files_from_commit(&self.store, c.as_slice()) {
                Ok(v) => v,
                Err(_) => Vec::new(),
            },
            Err(_) => Vec::new(),
        }
    }

    /// The staged files as (path, oid) pairs, in index order.
    pub fn get_index_files(&self) -> (r: Vec<TreeFile>)
        ensures
            r@.len() == self.index@.len(),
            forall|i: int|
                0 <= i < r@.len() ==> (#[trigger] r@[i])@.name == self.index@[i].path && r@[
                    i
                ]@.oid == self.index@[i].object_id,
    {
        let entries = self.index.get_entries();
        let mut r: Vec<TreeFile> = Vec::new();
        let mut i: usize = 0;
        while i < entries.len()
            invariant
                i <= entries@.len(),
                entries@.map_values(|e: crate::index::IndexEntry| e@) == self.index@,
                r@.len() == i,
                forall|j: int|
                    0 <= j < i ==> (#[trigger] r@[j])@.name == self.index@[j].path && r@[
                        j
                    ]@.oid == self.index@[j].object_id,
            decreases entries@.len() - i,
        {
            proof {
                assert(self.index@[i as int] == entries@[i as int]@);
            }
            r.push(
                TreeFile {
                    name: copy_bytes(entries[i].path.as_slice()),
                    oid: copy_bytes(entries[i].object_id.as_slice()),
                },
            );
            i = i + 1;
        }
        r
    }

    /// Record the staged tree as a commit on the current branch; the
    /// caller supplies the author identity and timestamp. Returns
    /// `None` when the tree matches the current commit's tree.
    pub fn commit(&mut self, message: &[u8], author: &[u8], timestamp: &[u8]) -> (r: Result<
        Option<Vec<u8>>,
        GitError,
    >)
        requires
            old(self).wf(),
        ensures
            final(self).wf(),
            final(self).index == old(self).index,
            final(self).refs.head@ == old(self).refs.head@,
            final(self).config == old(self).config,
            ({
                let attached = old(self).refs.head@.len() >= 16 && old(self).refs.head@.subrange(
                    0,
                    16,
                ) == symref_prefix() + heads_prefix();
                let hcs = head_commit_spec(old(self).refs);
                let tree_oid = oid_spec(ObjType::Tree, tree_payload(old(self).index@));
                let parents = match hcs {
                    Some(c) => seq![c],
                    None => Seq::<Seq<u8>>::empty(),
                };
                let payload = commit_payload(tree_oid, parents, message@, author@, timestamp@);
                let commit_oid = oid_spec(ObjType::Commit, payload);
                match r {
                    Ok(Some(v)) => ({
                        &&& v@ == commit_oid
                        &&& attached
                        &&& find_ref(
                            final(self).refs.entries@,
                            heads_prefix() + old(self).refs.head@.skip(16),
                        ) == Some(commit_oid)
                        &&& forall|n: Seq<u8>|
                            n != heads_prefix() + old(self).refs.head@.skip(16) ==> find_ref(
                                final(self).refs.entries@,
                                n,
                            ) == find_ref(old(self).refs.entries@, n)
                        &&& match hcs {
                            Some(c) => match old(self).store.find(c) {
                                Some((t, d)) => t == ObjType::Commit && commit_tree(d) is Some
                                    && commit_tree(d) != Some(tree_oid),
                                None => false,
                            },
                            None => true,
                        }
                    }),
                    Ok(None) => ({
                        &&& final(self).refs == old(self).refs
                        &&& attached
                        &&& match hcs {
                            Some(c) => match old(self).store.find(c) {
                                Some((t, d)) => t == ObjType::Commit && commit_tree(d) == Some(
                                    tree_oid,
                                ),
                                None => false,
                            },
                            None => false,
                        }
                    }),
                    Err(e) => ({
                        &&& final(self).store == old(self).store
                        &&& final(self).refs == old(self).refs
                        &&& (e == GitError::DetachedHead <==> !attached)
                        &&& (e == GitError::NotFound <==> attached && hcs is Some && old(
                            self,
                        ).store.find(hcs.unwrap()) is None)
                        &&& (e == GitError::InvalidArgument <==> attached && hcs is Some
                            && match old(self).store.find(hcs.unwrap()) {
                            Some((t, d)) => t != ObjType::Commit || commit_tree(d) is None,
                            None => false,
                        })
                        &&& (e == GitError::DetachedHead || e == GitError::NotFound || e
                            == GitError::InvalidArgument)
                    }),
                }
            }),
    {
        let branch = refs_current_branch(&self.refs)?;
        let parents: Vec<Vec<u8>> = match get_head_commit(&self.refs) {
            Ok(c) => vec![c],
            Err(_) => Vec::new(),
        };
        proof {
            match head_commit_spec(self.refs) {
                Some(c) => {
                    assert(parents@.map_values(|v: Vec<u8>| v@) =~= seq![c]);
                },
                None => {
                    assert(parents@.map_values(|v: Vec<u8>| v@) =~= Seq::<Seq<u8>>::empty());
                },
            }
        }
        let mut prev_tree: Option<Vec<u8>> = None;
        if parents.len() == 1 {
            match read_object(&self.store, parents[0].as_slice()) {
                Ok((t, d)) => {
                    match t {
                        ObjType::Commit => {
                            match parse_commit_tree(d.as_slice()) {
                                Some(pt) => {
                                    prev_tree = Some(pt);
                                },
                                None => {
                                    return Err(GitError::InvalidArgument);
                                },
                            }
                        },
                        _ => {
                            return Err(GitError::InvalidArgument);
                        },
                    }
                },
                Err(_) => {
                    return Err(GitError::NotFound);
                },
            }
        }
        let tree_oid = write_tree(&mut self.store, &self.index);
        match &prev_tree {
            Some(pt) => {
                if bytes_eq(pt.as_slice(), tree_oid.as_slice()) {
                    return Ok(None);
                }
            },
            None => {},
        }
        let commit_oid = write_commit(
            &mut self.store,
            tree_oid.as_slice(),
            &parents,
            message,
            author,
            timestamp,
        );
        create_branch(&mut self.refs, branch.as_slice(), commit_oid.as_slice());
        Ok(Some(commit_oid))
    }

    /// Three-way merge of the named branch into the current branch,
    /// against their merge base. On conflicts the repository is left
    /// exactly as it was and the conflicting paths are reported, with
    /// 1-based disagreeing line ranges for edit/edit conflicts. On a
    /// clean merge the reconciled file set becomes the index, its tree
    /// and a two-parent merge commit are written, and the current
    /// branch advances.
    pub fn merge(&mut self, branch_name: &[u8], author: &[u8], timestamp: &[u8]) -> (r: Result<
        MergeOutcome,
        GitError,
    >)
        requires
            old(self).wf(),
        ensures
            final(self).wf(),
            final(self).config == old(self).config,
            ({
                let attached = old(self).refs.head@.len() >= 16 && old(self).refs.head@.subrange(
                    0,
                    16,
                ) == symref_prefix() + heads_prefix();
                let cur_name = old(self).refs.head@.skip(16);
                let ours_ref = heads_prefix() + cur_name;
                let theirs_ref = heads_prefix() + branch_name@;
                let ours_oid = find_ref(old(self).refs.entries@, ours_ref);
                let theirs_oid = find_ref(old(self).refs.entries@, theirs_ref);
                &&& (attached && cur_name == branch_name@ ==> r == Ok::<
                    MergeOutcome,
                    GitError,
                >(MergeOutcome::AlreadyUpToDate))
                &&& (attached && cur_name != branch_name@ && ours_oid is Some && ours_oid
                    == theirs_oid ==> r == Ok::<MergeOutcome, GitError>(
                    MergeOutcome::AlreadyUpToDate,
                ))
                &&& (attached && cur_name != branch_name@ && ours_oid is None ==> r == Err::<
                    MergeOutcome,
                    GitError,
                >(GitError::NotFound))
                &&& (attached && cur_name != branch_name@ && ours_oid is Some && theirs_oid
                    is None ==> r == Err::<MergeOutcome, GitError>(GitError::UnknownBranch))
                &&& (attached && cur_name != branch_name@ && ours_oid is Some && theirs_oid
                    is Some && merge_inputs_ok(
                    old(self).store,
                    ours_oid.unwrap(),
                    theirs_oid.unwrap(),
                ) ==> r is Ok)
                &&& match r {
                    Err(e) => ({
                        &&& final(self).store == old(self).store
                        &&& final(self).refs == old(self).refs
                        &&& final(self).index == old(self).index
                        &&& (e == GitError::DetachedHead <==> !attached)
                        &&& (e == GitError::UnknownBranch <==> attached && cur_name
                            != branch_name@ && ours_oid is Some && theirs_oid is None)
                        &&& (e == GitError::DetachedHead || e == GitError::UnknownBranch || e
                            == GitError::NotFound || e == GitError::InvalidArgument)
                    }),
                    Ok(MergeOutcome::AlreadyUpToDate) => ({
                        &&& final(self).store == old(self).store
                        &&& final(self).refs == old(self).refs
                        &&& final(self).index == old(self).index
                        &&& attached
                        &&& (cur_name == branch_name@ || (ours_oid is Some && ours_oid
                            == theirs_oid))
                    }),
                    Ok(MergeOutcome::Conflicts { reports }) => ({
                        &&& final(self).store == old(self).store
                        &&& final(self).refs == old(self).refs
                        &&& final(self).index == old(self).index
                        &&& attached
                        &&& reports@.len() > 0
                        &&& exists|bf: Seq<TreeFileV>, of: Seq<TreeFileV>, tf: Seq<TreeFileV>|
                            {
                                &&& #[trigger] merge_view_ok(
                                    old(self).store,
                                    ours_oid.unwrap(),
                                    theirs_oid.unwrap(),
                                    bf,
                                    of,
                                    tf,
                                )
                                &&& forall|i: int|
                                    0 <= i < reports@.len() ==> merge_conflict(
                                        file_at(bf, (#[trigger] reports@[i])@.path),
                                        file_at(of, reports@[i]@.path),
                                        file_at(tf, reports@[i]@.path),
                                    )
                            }
                    }),
                    Ok(MergeOutcome::Merged { commit, removals, writes }) => ({
                        let tree_oid = oid_spec(ObjType::Tree, tree_payload(final(self).index@));
                        let msg = merge_msg_open() + branch_name@ + merge_msg_mid() + cur_name;
                        let payload = commit_payload(
                            tree_oid,
                            seq![ours_oid.unwrap(), theirs_oid.unwrap()],
                            msg,
                            author@,
                            timestamp@,
                        );
                        &&& attached
                        &&& ours_oid is Some
                        &&& theirs_oid is Some
                        &&& commit@ == oid_spec(ObjType::Commit, payload)
                        &&& find_ref(final(self).refs.entries@, ours_ref) == Some(commit@)
                        &&& forall|n: Seq<u8>|
                            n != ours_ref ==> find_ref(final(self).refs.entries@, n) == find_ref(
                                old(self).refs.entries@,
                                n,
                            )
                        &&& final(self).refs.head@ == old(self).refs.head@
                        &&& exists|bf: Seq<TreeFileV>, of: Seq<TreeFileV>, tf: Seq<TreeFileV>|
                            {
                                &&& #[trigger] merge_view_ok(
                                    old(self).store,
                                    ours_oid.unwrap(),
                                    theirs_oid.unwrap(),
                                    bf,
                                    of,
                                    tf,
                                )
                                &&& (forall|p: Seq<u8>|
                                    !merge_conflict(
                                        #[trigger] file_at(bf, p),
                                        file_at(of, p),
                                        file_at(tf, p),
                                    ))
                                &&& (forall|p: Seq<u8>|
                                    #[trigger] file_at(views_of(writes@), p) == merge_value(
                                        file_at(bf, p),
                                        file_at(of, p),
                                        file_at(tf, p),
                                    ))
                                &&& removals@.map_values(|v: Vec<u8>| v@) == removes_of(
                                    of,
                                    views_of(writes@),
                                )
                                &&& forall|p: Seq<u8>|
                                    match #[trigger] find_path(final(self).index@, p) {
                                        Some(e) => file_at(views_of(writes@), p) == Some(
                                            e.object_id,
                                        ),
                                        None => file_at(views_of(writes@), p) is None,
                                    }
                            }
                    }),
                }
            }),
    {
        let cur_name = refs_current_branch(&self.refs)?;
        if bytes_eq(cur_name.as_slice(), branch_name) {
            return Ok(MergeOutcome::AlreadyUpToDate);
        }
        let hp = heads_prefix_bytes();
        let ours_ref = crate::refs::concat2(hp.as_slice(), cur_name.as_slice());
        let theirs_ref = crate::refs::concat2(hp.as_slice(), branch_name);
        let ours_oid = match crate::refs::read_ref(&self.refs, ours_ref.as_slice()) {
            Ok(v) => v,
            Err(_) => {
                proof {
                    lemma_refs_full_name(self.refs, cur_name@);
                }
                return Err(GitError::NotFound);
            },
        };
        proof {
            lemma_refs_full_name(self.refs, cur_name@);
        }
        let theirs_oid = match crate::refs::read_ref(&self.refs, theirs_ref.as_slice()) {
            Ok(v) => v,
            Err(_) => {
                proof {
                    lemma_refs_full_name(self.refs, branch_name@);
                }
                return Err(GitError::UnknownBranch);
            },
        };
        proof {
            lemma_refs_full_name(self.refs, branch_name@);
        }
        if bytes_eq(ours_oid.as_slice(), theirs_oid.as_slice()) {
            return Ok(MergeOutcome::AlreadyUpToDate);
        }
        let base = find_merge_base(&self.store, ours_oid.as_slice(), theirs_oid.as_slice());
        let ours_files = match get_files_from_commit(&self.store, ours_oid.as_slice()) {
            Ok(v) => v,
            Err(GitError::NotFound) => {
                return Err(GitError::NotFound);
            },
            Err(_) => {
                return Err(GitError::InvalidArgument);
            },
        };
        let theirs_files = match get_files_from_commit(&self.store, theirs_oid.as_slice()) {
            Ok(v) => v,
            Err(GitError::NotFound) => {
                return Err(GitError::NotFound);
            },
            Err(_) => {
                return Err(GitError::InvalidArgument);
            },
        };
        let base_files = match &base {
            Some(b) => match get_files_from_commit(&self.store, b.as_slice()) {
                Ok(v) => v,
                Err(GitError::NotFound) => {
                    return Err(GitError::NotFound);
                },
                Err(_) => {
                    return Err(GitError::InvalidArgument);
                },
            },
            None => Vec::new(),
        };
        proof {
            if base is None {
                assert(base_files@.len() == 0);
                assert(views_of(base_files@) =~= Seq::<TreeFileV>::empty());
            }
            lemma_base_files_witness(
                self.store,
                ours_oid@,
                theirs_oid@,
                base,
                views_of(base_files@),
            );
            lemma_files_of_commit_oids(self.store, ours_oid@);
            lemma_files_of_commit_oids(self.store, theirs_oid@);
            assert forall|i: int| 0 <= i < views_of(ours_files@).len() implies is_hex_lower(
                (#[trigger] views_of(ours_files@)[i]).oid,
            ) && views_of(ours_files@)[i].oid.len() == 40 && crate::index::path_no_nul(
                views_of(ours_files@)[i].name,
            ) by {
                assert(views_of(ours_files@)[i] == crate::mergeeng::files_of_commit(
                    self.store,
                    ours_oid@,
                ).unwrap()[i]);
            }
            assert forall|i: int| 0 <= i < views_of(theirs_files@).len() implies is_hex_lower(
                (#[trigger] views_of(theirs_files@)[i]).oid,
            ) && views_of(theirs_files@)[i].oid.len() == 40 && crate::index::path_no_nul(
                views_of(theirs_files@)[i].name,
            ) by {
                assert(views_of(theirs_files@)[i] == crate::mergeeng::files_of_commit(
                    self.store,
                    theirs_oid@,
                ).unwrap()[i]);
            }
        }
        let plan = reconcile(&base_files, &ours_files, &theirs_files);
        if plan.conflicts.len() > 0 {
            let mut reports: Vec<ConflictReport> = Vec::new();
            let mut c: usize = 0;
            while c < plan.conflicts.len()
                invariant
                    c <= plan.conflicts@.len(),
                    *self == *old(self),
                    old(self).wf(),
                    old(self).refs.head@.len() >= 16 && old(self).refs.head@.subrange(0, 16)
                        == symref_prefix() + heads_prefix(),
                    cur_name@ == old(self).refs.head@.skip(16),
                    cur_name@ != branch_name@,
                    find_ref(old(self).refs.entries@, heads_prefix() + cur_name@) == Some(
                        ours_oid@,
                    ),
                    find_ref(old(self).refs.entries@, heads_prefix() + branch_name@) == Some(
                        theirs_oid@,
                    ),
                    ours_oid@ != theirs_oid@,
                    crate::mergeeng::files_of_commit(old(self).store, ours_oid@) == Some(
                        views_of(ours_files@),
                    ),
                    crate::mergeeng::files_of_commit(old(self).store, theirs_oid@) == Some(
                        views_of(theirs_files@),
                    ),
                    reports@.len() == c,
                    forall|p: Seq<u8>|
                        #[trigger] crate::ancestry::in_seq(plan.conflicts@, p) == merge_conflict(
                            file_at(views_of(base_files@), p),
                            file_at(views_of(ours_files@), p),
                            file_at(views_of(theirs_files@), p),
                        ),
                    forall|i: int|
                        0 <= i < c ==> (#[trigger] reports@[i])@.path == plan.conflicts@[i]@,
                decreases plan.conflicts@.len() - c,
            {
                let p = &plan.conflicts[c];
                let ov = crate::mergeeng::find_file_pub(&ours_files, p.as_slice());
                let tv = crate::mergeeng::find_file_pub(&theirs_files, p.as_slice());
                let ranges: Vec<(usize, usize)> = match (&ov, &tv) {
                    (Some(oo), Some(tt)) => {
                        let oblob = match read_object(&self.store, oo.as_slice()) {
                            Ok((_, d)) => d,
                            Err(_) => {
                                proof {
                                    let ofv = views_of(ours_files@);
                                    crate::mergeeng::lemma_file_at_index_pub(
                                        ofv,
                                        plan.conflicts@[c as int]@,
                                    );
                                    let i = choose|i: int|
                                        0 <= i < ofv.len() && (#[trigger] ofv[i]).name
                                            == plan.conflicts@[c as int]@ && Some(ofv[i].oid)
                                            == file_at(ofv, plan.conflicts@[c as int]@);
                                    assert(crate::mergeeng::files_of_commit(
                                        old(self).store,
                                        ours_oid@,
                                    ).unwrap()[i] == ofv[i]);
                                    assert(old(self).store.find(ofv[i].oid) is None);
                                    assert(!merge_inputs_ok(
                                        old(self).store,
                                        ours_oid@,
                                        theirs_oid@,
                                    ));
                                }
                                return Err(GitError::NotFound);
                            },
                        };
                        let tblob = match read_object(&self.store, tt.as_slice()) {
                            Ok((_, d)) => d,
                            Err(_) => {
                                proof {
                                    let tfv = views_of(theirs_files@);
                                    crate::mergeeng::lemma_file_at_index_pub(
                                        tfv,
                                        plan.conflicts@[c as int]@,
                                    );
                                    let i = choose|i: int|
                                        0 <= i < tfv.len() && (#[trigger] tfv[i]).name
                                            == plan.conflicts@[c as int]@ && Some(tfv[i].oid)
                                            == file_at(tfv, plan.conflicts@[c as int]@);
                                    assert(crate::mergeeng::files_of_commit(
                                        old(self).store,
                                        theirs_oid@,
                                    ).unwrap()[i] == tfv[i]);
                                    assert(old(self).store.find(tfv[i].oid) is None);
                                    assert(!merge_inputs_ok(
                                        old(self).store,
                                        ours_oid@,
                                        theirs_oid@,
                                    ));
                                }
                                return Err(GitError::NotFound);
                            },
                        };
                        conflict_ranges(oblob.as_slice(), tblob.as_slice())
                    },
                    _ => Vec::new(),
                };
                reports.push(ConflictReport { path: copy_bytes(p.as_slice()), ranges });
                c = c + 1;
            }
            proof {
                assert(crate::ancestry::in_seq(plan.conflicts@, plan.conflicts@[0]@));
                assert forall|i: int| 0 <= i < reports@.len() implies merge_conflict(
                    file_at(views_of(base_files@), (#[trigger] reports@[i])@.path),
                    file_at(views_of(ours_files@), reports@[i]@.path),
                    file_at(views_of(theirs_files@), reports@[i]@.path),
                ) by {
                    assert(crate::ancestry::in_seq(plan.conflicts@, plan.conflicts@[i]@));
                }
            }
            proof {
                assert(self.store == old(self).store);
                assert(cur_name@ == old(self).refs.head@.skip(16));
                assert(find_ref(
                    old(self).refs.entries@,
                    heads_prefix() + old(self).refs.head@.skip(16),
                ) == Some(ours_oid@));
                assert(find_ref(old(self).refs.entries@, heads_prefix() + branch_name@) == Some(
                    theirs_oid@,
                ));
                let o2 = find_ref(
                    old(self).refs.entries@,
                    heads_prefix() + old(self).refs.head@.skip(16),
                ).unwrap();
                let t2 = find_ref(old(self).refs.entries@, heads_prefix() + branch_name@).unwrap();
                assert(o2 == ours_oid@ && t2 == theirs_oid@);
                assert(merge_view_ok(
                    old(self).store,
                    o2,
                    t2,
                    views_of(base_files@),
                    views_of(ours_files@),
                    views_of(theirs_files@),
                ));
                assert(reports@.len() > 0);
            }
            return Ok(MergeOutcome::Conflicts { reports });
        }
        proof {
            assert forall|p: Seq<u8>| true implies !merge_conflict(
                #[trigger] file_at(views_of(base_files@), p),
                file_at(views_of(ours_files@), p),
                file_at(views_of(theirs_files@), p),
            ) by {
                assert(!crate::ancestry::in_seq(plan.conflicts@, p));
            }
            lemma_merged_files_valid(
                views_of(base_files@),
                views_of(ours_files@),
                views_of(theirs_files@),
                views_of(plan.merged@),
                base_files@,
                ours_files@,
                theirs_files@,
                plan.merged@,
            );
        }
        let mut removals: Vec<Vec<u8>> = Vec::new();
        let mut m: usize = 0;
        proof {
            assert(removals@.map_values(|v: Vec<u8>| v@) =~= removes_of(
                views_of(ours_files@.take(0)),
                views_of(plan.merged@),
            ));
            assert(views_of(ours_files@.take(0)) =~= Seq::<TreeFileV>::empty());
        }
        while m < ours_files.len()
            invariant
                m <= ours_files@.len(),
                removals@.map_values(|v: Vec<u8>| v@) == removes_of(
                    views_of(ours_files@.take(m as int)),
                    views_of(plan.merged@),
                ),
            decreases ours_files@.len() - m,
        {
            if crate::mergeeng::find_file_pub(&plan.merged, ours_files[m].name.as_slice()).is_none() {
                removals.push(copy_bytes(ours_files[m].name.as_slice()));
            }
            proof {
                let t1 = views_of(ours_files@.take(m + 1));
                assert(t1.drop_last() =~= views_of(ours_files@.take(m as int)));
                assert(t1.last() == ours_files@[m as int]@);
                assert(removals@.map_values(|v: Vec<u8>| v@) =~= removes_of(
                    t1,
                    views_of(plan.merged@),
                ));
            }
            m = m + 1;
        }
        proof {
            assert(views_of(ours_files@.take(ours_files@.len() as int)) =~= views_of(
                ours_files@,
            ));
        }
        self.index = index_from_files(&plan.merged);
        let tree_oid = write_tree(&mut self.store, &self.index);
        let mut msg = merge_msg_open_bytes();
        crate::bytes::append_bytes(&mut msg, branch_name);
        let mid = merge_msg_mid_bytes();
        crate::bytes::append_bytes(&mut msg, mid.as_slice());
        crate::bytes::append_bytes(&mut msg, cur_name.as_slice());
        let parents = vec![ours_oid, theirs_oid];
        proof {
            assert(parents@.map_values(|v: Vec<u8>| v@) =~= seq![
                parents@[0]@,
                parents@[1]@,
            ]);
        }
        let commit_oid = write_commit(
            &mut self.store,
            tree_oid.as_slice(),
            &parents,
            msg.as_slice(),
            author,
            timestamp,
        );
        create_branch(&mut self.refs, cur_name.as_slice(), commit_oid.as_slice());
        proof {
            let o2 = find_ref(
                old(self).refs.entries@,
                heads_prefix() + old(self).refs.head@.skip(16),
            ).unwrap();
            let t2 = find_ref(old(self).refs.entries@, heads_prefix() + branch_name@).unwrap();
            assert(o2 == ours_oid@ && t2 == theirs_oid@);
            assert(merge_view_ok(
                old(self).store,
                o2,
                t2,
                views_of(base_files@),
                views_of(ours_files@),
                views_of(theirs_files@),
            ));
        }
        Ok(
            MergeOutcome::Merged {
                commit: commit_oid,
                removals,
                writes: plan.merged,
            },
        )
    }

    /// Switch HEAD to a branch, creating it first when asked. The
    /// caller passes the working tree as (path, blob id) pairs; the
    /// switch is refused with `InvalidArgument` when it would overwrite
    /// an untracked working-tree file with different content. The plan
    /// lists the paths to remove (in the current tree but not the
    /// target) and the files to write (the whole target tree). The
    /// index takes the target tree's changed files and drops entries
    /// for files the target removed, keeping staged changes that do not
    /// intersect: `checkout_index_value`, path by path.
    pub fn checkout(
        &mut self,
        branch_name: &[u8],
        create_flag: bool,
        working: &Vec<TreeFile>,
    ) -> (r: Result<WorkPlan, GitError>)
        requires
            old(self).wf(),
        ensures
            final(self).wf(),
            final(self).store == old(self).store,
            final(self).config == old(self).config,
            ({
                let branch_ref = heads_prefix() + branch_name@;
                let existed = find_ref(old(self).refs.entries@, branch_ref) is Some;
                let hcs = head_commit_spec(old(self).refs);
                let gates_ok = !(create_flag && existed) && !(!create_flag && !existed) && !(
                create_flag && hcs is None);
                let target = if create_flag {
                    hcs.unwrap()
                } else {
                    find_ref(old(self).refs.entries@, branch_ref).unwrap()
                };
                let cf = checkout_current_files(old(self).store, old(self).refs);
                let tf_opt = crate::mergeeng::files_of_commit(old(self).store, target);
                match r {
                    Err(e) => ({
                        &&& final(self).refs == old(self).refs
                        &&& final(self).index == old(self).index
                        &&& (e == GitError::BranchExists <==> create_flag && existed)
                        &&& (e == GitError::UnknownBranch <==> !create_flag && !existed)
                        &&& (e == GitError::NotFound <==> !(create_flag && existed) && ((
                        create_flag && !existed && hcs is None) || (gates_ok && old(
                            self,
                        ).store.find(target) is None)))
                        &&& (e == GitError::InvalidArgument <==> gates_ok && old(self).store.find(
                            target,
                        ) is Some && (tf_opt is None || untracked_overwrite(
                            working@,
                            old(self).index@,
                            cf,
                            tf_opt.unwrap(),
                        )))
                        &&& (e == GitError::BranchExists || e == GitError::UnknownBranch || e
                            == GitError::NotFound || e == GitError::InvalidArgument)
                    }),
                    Ok(plan) => ({
                        &&& gates_ok
                        &&& tf_opt is Some
                        &&& !untracked_overwrite(working@, old(self).index@, cf, tf_opt.unwrap())
                        &&& final(self).refs.head@ == symref_prefix() + branch_ref
                        &&& find_ref(final(self).refs.entries@, branch_ref) == Some(target)
                        &&& (!create_flag ==> final(self).refs.entries@ == old(
                            self,
                        ).refs.entries@)
                        &&& (create_flag ==> forall|n: Seq<u8>|
                            n != branch_ref ==> find_ref(final(self).refs.entries@, n) == find_ref(
                                old(self).refs.entries@,
                                n,
                            ))
                        &&& views_of(plan.writes@) == tf_opt.unwrap()
                        &&& plan.removals@.map_values(|v: Vec<u8>| v@) == removes_of(
                            cf,
                            tf_opt.unwrap(),
                        )
                        &&& (distinct_names(tf_opt.unwrap()) ==> forall|p: Seq<u8>|
                            #[trigger] find_path(final(self).index@, p) == checkout_index_value(
                                old(self).index@,
                                cf,
                                tf_opt.unwrap(),
                                p,
                            ))
                    }),
                }
            }),
    {
        let hp = heads_prefix_bytes();
        let branch_ref = crate::refs::concat2(hp.as_slice(), branch_name);
        proof {
            lemma_refs_full_name(*&self.refs, branch_name@);
        }
        let existing = crate::refs::read_ref(&self.refs, branch_ref.as_slice());
        let target_commit: Vec<u8>;
        let mut head_for_create: Option<Vec<u8>> = None;
        if create_flag {
            if existing.is_ok() {
                return Err(GitError::BranchExists);
            }
            match get_head_commit(&self.refs) {
                Ok(c) => {
                    target_commit = copy_bytes(c.as_slice());
                    head_for_create = Some(c);
                },
                Err(_) => {
                    return Err(GitError::NotFound);
                },
            }
        } else {
            match existing {
                Ok(c) => {
                    target_commit = c;
                },
                Err(_) => {
                    return Err(GitError::UnknownBranch);
                },
            }
        }
        let current_files: Vec<TreeFile> = match get_head_commit(&self.refs) {
            Ok(c) => match get_files_from_commit(&self.store, c.as_slice()) {
                Ok(v) => v,
                Err(_) => {
                    let none_read: Vec<TreeFile> = Vec::new();
                    proof {
                        assert(views_of(none_read@) =~= Seq::<TreeFileV>::empty());
                    }
                    none_read
                },
            },
            Err(_) => {
                let detached: Vec<TreeFile> = Vec::new();
                proof {
                    assert(views_of(detached@) =~= Seq::<TreeFileV>::empty());
                }
                detached
            },
        };
        let ghost cfv = views_of(current_files@);
        proof {
            assert(cfv == checkout_current_files(self.store, self.refs));
        }
        let target_files = match get_files_from_commit(&self.store, target_commit.as_slice()) {
            Ok(v) => v,
            Err(GitError::NotFound) => {
                return Err(GitError::NotFound);
            },
            Err(_) => {
                return Err(GitError::InvalidArgument);
            },
        };
        let ghost tfv = views_of(target_files@);
        let ghost ix0 = self.index@;
        // refuse to overwrite an untracked working-tree file
        let mut w: usize = 0;
        while w < working.len()
            invariant
                w <= working@.len(),
                *self == *old(self),
                old(self).wf(),
                !(create_flag && find_ref(
                    old(self).refs.entries@,
                    heads_prefix() + branch_name@,
                ) is Some),
                !(!create_flag && find_ref(
                    old(self).refs.entries@,
                    heads_prefix() + branch_name@,
                ) is None),
                !(create_flag && head_commit_spec(old(self).refs) is None),
                target_commit@ == (if create_flag {
                    head_commit_spec(old(self).refs).unwrap()
                } else {
                    find_ref(old(self).refs.entries@, heads_prefix() + branch_name@).unwrap()
                }),
                ix0 == old(self).index@,
                cfv == checkout_current_files(old(self).store, old(self).refs),
                cfv == views_of(current_files@),
                tfv == views_of(target_files@),
                crate::mergeeng::files_of_commit(old(self).store, target_commit@) == Some(tfv),
                forall|x: int| 0 <= x < w ==> !untracked_at(working@, ix0, cfv, tfv, x),
            decreases working@.len() - w,
        {
            let wf_entry = &working[w];
            let staged = find_entry_exists(&self.index, wf_entry.name.as_slice());
            let in_current = crate::mergeeng::find_file_pub(
                &current_files,
                wf_entry.name.as_slice(),
            );
            if !staged && in_current.is_none() {
                match crate::mergeeng::find_file_pub(&target_files, wf_entry.name.as_slice()) {
                    Some(t_oid) => {
                        if !bytes_eq(t_oid.as_slice(), wf_entry.oid.as_slice()) {
                            proof {
                                assert(untracked_at(working@, ix0, cfv, tfv, w as int));
                                assert(untracked_overwrite(working@, ix0, cfv, tfv));
                            }
                            return Err(GitError::InvalidArgument);
                        }
                    },
                    None => {},
                }
            }
            w = w + 1;
        }
        proof {
            assert(!untracked_overwrite(working@, ix0, cfv, tfv));
        }
        // all checks passed: switch
        if create_flag {
            match head_for_create {
                Some(c) => {
                    create_branch(&mut self.refs, branch_name, c.as_slice());
                },
                None => {},
            }
        }
        let mut head = symref_prefix_bytes();
        crate::bytes::append_bytes(&mut head, branch_ref.as_slice());
        self.refs.head = head;
        let ghost refs_after = self.refs;
        proof {
            assert(refs_after.head@ =~= symref_prefix() + (heads_prefix() + branch_name@));
        }
        // the index takes the target's changed files
        proof {
            lemma_files_of_commit_oids(old(self).store, target_commit@);
            assert forall|i: int| 0 <= i < tfv.len() implies is_hex_lower(
                (#[trigger] tfv[i]).oid,
            ) && tfv[i].oid.len() == 40 && crate::index::path_no_nul(tfv[i].name) by {
                assert(tfv[i] == crate::mergeeng::files_of_commit(
                    old(self).store,
                    target_commit@,
                ).unwrap()[i]);
            }
            assert(tfv.take(0) =~= Seq::<TreeFileV>::empty());
        }
        let mut k: usize = 0;
        while k < target_files.len()
            invariant
                k <= target_files@.len(),
                self.index.wf(),
                self.store == old(self).store,
                self.refs == refs_after,
                self.config == old(self).config,
                old(self).wf(),
                ix0 == old(self).index@,
                cfv == views_of(current_files@),
                tfv == views_of(target_files@),
                forall|i: int|
                    0 <= i < tfv.len() ==> is_hex_lower((#[trigger] tfv[i]).oid) && tfv[
                        i
                    ].oid.len() == 40 && crate::index::path_no_nul(tfv[i].name),
                distinct_names(tfv) ==> forall|p: Seq<u8>|
                    #[trigger] find_path(self.index@, p) == staged_after_adds(
                        ix0,
                        cfv,
                        tfv.take(k as int),
                        p,
                    ),
            decreases target_files@.len() - k,
        {
            let tf_entry = &target_files[k];
            let changed = match crate::mergeeng::find_file_pub(
                &current_files,
                tf_entry.name.as_slice(),
            ) {
                Some(c_oid) => !bytes_eq(c_oid.as_slice(), tf_entry.oid.as_slice()),
                None => true,
            };
            let ghost ixk = self.index@;
            proof {
                assert(tfv[k as int] == target_files@[k as int]@);
            }
            if changed {
                self.index.add_file(tf_entry.name.as_slice(), 0, tf_entry.oid.as_slice());
            }
            proof {
                if distinct_names(tfv) {
                    let f = tfv[k as int];
                    let tk = tfv.take(k as int);
                    let tk1 = tfv.take(k + 1);
                    assert(tk1 =~= tk.push(f));
                    assert(file_at(tk, f.name) is None) by {
                        assert forall|m: int| 0 <= m < tk.len() implies (#[trigger] tk[m]).name
                            != f.name by {
                            assert(tk[m] == tfv[m]);
                        }
                        crate::mergeeng::lemma_file_at_absent_pub(tk, f.name);
                    }
                    assert forall|p: Seq<u8>| true implies #[trigger] find_path(self.index@, p)
                        == staged_after_adds(ix0, cfv, tk1, p) by {
                        crate::mergeeng::lemma_file_at_push_pub(tk, f, p);
                        if p == f.name {
                            assert(file_at(tk1, p) == Some(f.oid));
                            if changed {
                                assert(find_path(self.index@, p) == Some(
                                    crate::index::IndexEntryV {
                                        path: p,
                                        mtime: 0,
                                        object_id: f.oid,
                                        mode: 0o100644,
                                    },
                                ));
                            } else {
                                assert(find_path(self.index@, p) == find_path(ixk, p));
                                assert(find_path(ixk, p) == staged_after_adds(ix0, cfv, tk, p));
                                assert(file_at(tk, p) is None);
                            }
                        } else {
                            assert(file_at(tk1, p) == file_at(tk, p));
                            if changed {
                                assert(find_path(self.index@, p) == find_path(ixk, p));
                            }
                        }
                    }
                }
            }
            k = k + 1;
        }
        proof {
            assert(tfv.take(tfv.len() as int) =~= tfv);
        }
        let ghost ix1 = self.index@;
        // drop entries for files the target removed, unless staged
        let mut to_drop: Vec<Vec<u8>> = Vec::new();
        let entries = self.index.get_entries();
        let mut e: usize = 0;
        while e < entries.len()
            invariant
                e <= entries@.len(),
                entries@.map_values(|x: crate::index::IndexEntry| x@) == ix1,
                ix1 == self.index@,
                crate::index::entries_wf(ix1),
                cfv == views_of(current_files@),
                tfv == views_of(target_files@),
                forall|j: int|
                    0 <= j < to_drop@.len() ==> drop_hit(cfv, tfv, ix1, (#[trigger] to_drop@[j])@),
                forall|x: int|
                    0 <= x < e && drop_hit(cfv, tfv, ix1, (#[trigger] ix1[x]).path) ==>
                        crate::ancestry::in_seq(to_drop@, ix1[x].path),
            decreases entries@.len() - e,
        {
            proof {
                assert(ix1[e as int] == entries@[e as int]@);
            }
            let path = &entries[e].path;
            let mut hit = false;
            match crate::mergeeng::find_file_pub(&current_files, path.as_slice()) {
                Some(c_oid) => {
                    if crate::mergeeng::find_file_pub(&target_files, path.as_slice()).is_none()
                        && bytes_eq(c_oid.as_slice(), entries[e].object_id.as_slice()) {
                        hit = true;
                    }
                },
                None => {},
            }
            proof {
                crate::index::lemma_find_path_self(ix1, e as int);
                assert(hit == drop_hit(cfv, tfv, ix1, ix1[e as int].path));
            }
            if hit {
                let ghost d0 = to_drop@;
                to_drop.push(copy_bytes(path.as_slice()));
                proof {
                    assert(to_drop@[d0.len() as int]@ == ix1[e as int].path);
                    assert forall|x: int|
                        0 <= x < e + 1 && drop_hit(cfv, tfv, ix1, (#[trigger] ix1[x]).path)
                        implies crate::ancestry::in_seq(to_drop@, ix1[x].path) by {
                        if x < e {
                            let j = choose|j: int|
                                0 <= j < d0.len() && (#[trigger] d0[j])@ == ix1[x].path;
                            assert(to_drop@[j]@ == ix1[x].path);
                        } else {
                            assert(to_drop@[d0.len() as int]@ == ix1[x].path);
                        }
                    }
                    assert forall|j: int| 0 <= j < to_drop@.len() implies drop_hit(
                        cfv,
                        tfv,
                        ix1,
                        (#[trigger] to_drop@[j])@,
                    ) by {
                        if j < d0.len() {
                            assert(to_drop@[j] == d0[j]);
                        }
                    }
                }
            }
            e = e + 1;
        }
        let mut d: usize = 0;
        while d < to_drop.len()
            invariant
                d <= to_drop@.len(),
                self.index.wf(),
                self.store == old(self).store,
                self.refs == refs_after,
                self.config == old(self).config,
                old(self).wf(),
                forall|j: int|
                    0 <= j < to_drop@.len() ==> drop_hit(cfv, tfv, ix1, (#[trigger] to_drop@[j])@),
                forall|x: int|
                    0 <= x < ix1.len() && drop_hit(cfv, tfv, ix1, (#[trigger] ix1[x]).path) ==>
                        crate::ancestry::in_seq(to_drop@, ix1[x].path),
                forall|p: Seq<u8>|
                    #[trigger] find_path(self.index@, p) == if (exists|j: int|
                        0 <= j < d && (#[trigger] to_drop@[j])@ == p) {
                        None
                    } else {
                        find_path(ix1, p)
                    },
            decreases to_drop@.len() - d,
        {
            let ghost ixd = self.index@;
            self.index.remove_entry(to_drop[d].as_slice());
            proof {
                assert forall|p: Seq<u8>| true implies #[trigger] find_path(self.index@, p) == (
                if (exists|j: int| 0 <= j < d + 1 && (#[trigger] to_drop@[j])@ == p) {
                    None
                } else {
                    find_path(ix1, p)
                }) by {
                    if p == to_drop@[d as int]@ {
                        assert(0 <= d < d + 1 && to_drop@[d as int]@ == p);
                    } else {
                        assert(find_path(self.index@, p) == find_path(ixd, p));
                        if exists|j: int| 0 <= j < d && (#[trigger] to_drop@[j])@ == p {
                            let j = choose|j: int|
                                0 <= j < d && (#[trigger] to_drop@[j])@ == p;
                            assert(0 <= j < d + 1 && to_drop@[j]@ == p);
                        }
                    }
                }
            }
            d = d + 1;
        }
        // working-tree plan
        let mut removals: Vec<Vec<u8>> = Vec::new();
        let mut m: usize = 0;
        proof {
            assert(removals@.map_values(|v: Vec<u8>| v@) =~= removes_of(
                views_of(current_files@.take(0)),
                tfv,
            ));
            assert(views_of(current_files@.take(0)) =~= Seq::<TreeFileV>::empty());
        }
        while m < current_files.len()
            invariant
                m <= current_files@.len(),
                tfv == views_of(target_files@),
                removals@.map_values(|v: Vec<u8>| v@) == removes_of(
                    views_of(current_files@.take(m as int)),
                    tfv,
                ),
            decreases current_files@.len() - m,
        {
            if crate::mergeeng::find_file_pub(
                &target_files,
                current_files[m].name.as_slice(),
            ).is_none() {
                removals.push(copy_bytes(current_files[m].name.as_slice()));
            }
            proof {
                let t1 = views_of(current_files@.take(m + 1));
                assert(t1.drop_last() =~= views_of(current_files@.take(m as int)));
                assert(t1.last() == current_files@[m as int]@);
                assert(removals@.map_values(|v: Vec<u8>| v@) =~= removes_of(t1, tfv));
            }
            m = m + 1;
        }
        proof {
            assert(views_of(current_files@.take(current_files@.len() as int)) =~= views_of(
                current_files@,
            ));
        }
        let mut writes: Vec<TreeFile> = Vec::new();
        let mut x: usize = 0;
        while x < target_files.len()
            invariant
                x <= target_files@.len(),
                views_of(writes@) == views_of(target_files@.take(x as int)),
            decreases target_files@.len() - x,
        {
            let f = TreeFile {
                name: copy_bytes(target_files[x].name.as_slice()),
                oid: copy_bytes(target_files[x].oid.as_slice()),
            };
            let ghost w0 = writes@;
            proof {
                assert(f@ == target_files@[x as int]@);
            }
            writes.push(f);
            proof {
                assert(views_of(w0).len() == w0.len());
                assert(w0.len() == x as int);
                assert(writes@ == w0.push(f));
                assert forall|y: int| 0 <= y < x + 1 implies views_of(writes@)[y] == views_of(
                    target_files@.take(x + 1),
                )[y] by {
                    if y < x {
                        assert(writes@[y] == w0[y]);
                        assert(views_of(writes@)[y] == views_of(w0)[y]);
                        assert(views_of(w0)[y] == views_of(target_files@.take(x as int))[y]);
                        assert(target_files@.take(x as int)[y] == target_files@.take(x + 1)[y]);
                        assert(views_of(target_files@.take(x as int))[y] == views_of(
                            target_files@.take(x + 1),
                        )[y]);
                    } else {
                        assert(writes@[y] == f);
                        assert(target_files@.take(x + 1)[y] == target_files@[y]);
                    }
                }
                assert(views_of(writes@) =~= views_of(target_files@.take(x + 1)));
            }
            x = x + 1;
        }
        proof {
            assert(views_of(target_files@.take(target_files@.len() as int)) =~= tfv);
            assert(branch_ref@ == heads_prefix() + branch_name@);
            if !create_flag {
                assert(self.refs.entries@ == old(self).refs.entries@);
            }
            assert(find_ref(self.refs.entries@, heads_prefix() + branch_name@) == Some(
                target_commit@,
            ));
            // the final index is checkout_index_value at every path
            if distinct_names(tfv) {
                assert forall|p: Seq<u8>| true implies #[trigger] find_path(self.index@, p)
                    == checkout_index_value(ix0, cfv, tfv, p) by {
                    if file_at(tfv, p) is Some {
                        assert(!crate::ancestry::in_seq(to_drop@, p)) by {
                            if crate::ancestry::in_seq(to_drop@, p) {
                                let j = choose|j: int|
                                    0 <= j < to_drop@.len() && (#[trigger] to_drop@[j])@ == p;
                                assert(drop_hit(cfv, tfv, ix1, p));
                            }
                        }
                        assert(find_path(self.index@, p) == find_path(ix1, p));
                        assert(find_path(ix1, p) == staged_after_adds(ix0, cfv, tfv, p));
                    } else {
                        assert(find_path(ix1, p) == staged_after_adds(ix0, cfv, tfv, p));
                        assert(staged_after_adds(ix0, cfv, tfv, p) == find_path(ix0, p));
                        if drop_hit(cfv, tfv, ix1, p) {
                            crate::index::lemma_find_path_index(ix1, p);
                            let xx = choose|xx: int|
                                0 <= xx < ix1.len() && (#[trigger] ix1[xx]).path == p && find_path(
                                    ix1,
                                    p,
                                ) == Some(ix1[xx]);
                            assert(crate::ancestry::in_seq(to_drop@, p));
                            assert(find_path(self.index@, p) is None);
                        } else {
                            assert(!crate::ancestry::in_seq(to_drop@, p)) by {
                                if crate::ancestry::in_seq(to_drop@, p) {
                                    let j = choose|j: int|
                                        0 <= j < to_drop@.len() && (#[trigger] to_drop@[j])@ == p;
                                    assert(drop_hit(cfv, tfv, ix1, p));
                                }
                            }
                            assert(find_path(self.index@, p) == find_path(ix0, p));
                        }
                    }
                }
            }
        }
        Ok(WorkPlan { removals, writes })
    }

    /// Pack every loose object into one pack and keep the records as
    /// packed; returns the pack file bytes, whose trailer is the SHA-1
    /// of all preceding bytes. No object becomes unreachable.
    pub fn repack(&mut self) -> (r: Vec<u8>)
        requires
            old(self).wf(),
            old(self).store.loose@.len() < 0x100000000,
        ensures
            final(self).wf(),
            final(self).refs == old(self).refs,
            final(self).index == old(self).index,
            r@ == pack_prefix(old(self).store.loose@) + sha1_of(
                pack_prefix(old(self).store.loose@),
            ),
            final(self).store.loose@.len() == 0,
            crate::bundle::rec_views(final(self).store.packed@) == crate::bundle::rec_views(
                old(self).store.packed@,
            ) + crate::bundle::rec_views(old(self).store.loose@),
            forall|oid: Seq<u8>|
                #[trigger] final(self).store.find(oid) is Some <==> old(self).store.find(oid)
                    is Some,
    {
        let bytes = create_pack(&self.store.loose);
        let ghost old_loose = self.store.loose@;
        let ghost old_packed = self.store.packed@;
        let mut i: usize = 0;
        while i < self.store.loose.len()
            invariant
                i <= self.store.loose@.len(),
                self.store.loose@ == old_loose,
                self.refs == old(self).refs,
                self.index == old(self).index,
                old(self).wf(),
                old_loose == old(self).store.loose@,
                old_packed == old(self).store.packed@,
                crate::bundle::rec_views(self.store.packed@) == crate::bundle::rec_views(
                    old_packed,
                ) + crate::bundle::rec_views(old_loose.take(i as int)),
            decreases self.store.loose@.len() - i,
        {
            let rec = ObjRecord {
                oid: copy_bytes(self.store.loose[i].oid.as_slice()),
                otype: self.store.loose[i].otype,
                data: copy_bytes(self.store.loose[i].data.as_slice()),
            };
            let ghost p0 = self.store.packed@;
            proof {
                assert(rec.oid@ == old_loose[i as int].oid@);
                assert(rec.data@ == old_loose[i as int].data@);
            }
            self.store.packed.push(rec);
            proof {
                let ll = crate::bundle::rec_views(old_packed).len();
                let rhs = crate::bundle::rec_views(old_packed) + crate::bundle::rec_views(
                    old_loose.take(i + 1),
                );
                assert(crate::bundle::rec_views(p0).len() == p0.len());
                assert(self.store.packed@ == p0.push(rec));
                assert forall|x: int|
                    0 <= x < self.store.packed@.len() implies crate::bundle::rec_views(
                    self.store.packed@,
                )[x] == rhs[x] by {
                    if x < p0.len() {
                        assert(self.store.packed@[x] == p0[x]);
                        assert(crate::bundle::rec_views(self.store.packed@)[x]
                            == crate::bundle::rec_views(p0)[x]);
                        if x >= ll {
                            assert(crate::bundle::rec_views(old_loose.take(i as int))[x - ll]
                                == crate::bundle::rec_views(old_loose.take(i + 1))[x - ll]);
                        }
                    } else {
                        assert(self.store.packed@[x] == rec);
                        assert(rhs[x] == crate::bundle::rec_views(old_loose.take(i + 1))[x - ll]);
                        assert(old_loose.take(i + 1)[i as int] == old_loose[i as int]);
                    }
                }
                assert(crate::bundle::rec_views(self.store.packed@) =~= rhs);
            }
            i = i + 1;
        }
        proof {
            assert(old_loose.take(old_loose.len() as int) =~= old_loose);
        }
        self.store.loose = Vec::new();
        proof {
            let fin = self.store;
            assert forall|x: int|
                0 <= x < fin.packed@.len() implies (#[trigger] fin.packed@[x]).oid@ == oid_spec(
                fin.packed@[x].otype,
                fin.packed@[x].data@,
            ) by {
                let rv = crate::bundle::rec_views(fin.packed@);
                assert(rv[x] == (fin.packed@[x].oid@, fin.packed@[x].otype, fin.packed@[x].data@));
                if x < old_packed.len() {
                    assert(rv[x] == crate::bundle::rec_views(old_packed)[x]);
                } else {
                    assert(rv[x] == crate::bundle::rec_views(old_loose)[x - old_packed.len()]);
                }
            }
            assert forall|oid: Seq<u8>| #[trigger]
                fin.find(oid) is Some <==> (find_rec(old_loose, oid) is Some || find_rec(
                old_packed,
                oid,
            ) is Some) by {
                lemma_find_concat_views(fin.packed@, old_packed, old_loose, oid);
                assert(find_rec(fin.loose@, oid) is None);
            }
        }
        bytes
    }

    /// Garbage-collect: pack the loose objects; the pack writer itself
    /// defers loose deletion until the pack is complete.
    pub fn gc(&mut self) -> (r: Vec<u8>)
        requires
            old(self).wf(),
            old(self).store.loose@.len() < 0x100000000,
        ensures
            final(self).wf(),
            final(self).refs == old(self).refs,
            final(self).index == old(self).index,
            r@ == pack_prefix(old(self).store.loose@) + sha1_of(
                pack_prefix(old(self).store.loose@),
            ),
            final(self).store.loose@.len() == 0,
            forall|oid: Seq<u8>|
                #[trigger] final(self).store.find(oid) is Some <==> old(self).store.find(oid)
                    is Some,
    {
        self.repack()
    }
}

/// One conflicting path of a merge, with the 1-based line ranges on
/// which the two sides disagree (for an edit/edit conflict).
pub struct ConflictReport {
    pub path: Vec<u8>,
    pub ranges: Vec<(usize, usize)>,
}

/// The mathematical value of a conflict report.
pub ghost struct ConflictReportV {
    pub path: Seq<u8>,
    pub ranges: Seq<(int, int)>,
}

impl View for ConflictReport {
    type V = ConflictReportV;

    open spec fn view(&self) -> ConflictReportV {
        ConflictReportV {
            path: self.path@,
            ranges: self.ranges@.map_values(|p: (usize, usize)| (p.0 as int, p.1 as int)),
        }
    }
}

/// What a merge produced.
pub enum MergeOutcome {
    /// The branches already agree.
    AlreadyUpToDate,
    /// A merge commit was written: its id, the working-tree paths to
    /// remove, and the files to write.
    Merged { commit: Vec<u8>, removals: Vec<Vec<u8>>, writes: Vec<TreeFile> },
    /// At least one path conflicts; the repository is left untouched.
    Conflicts { reports: Vec<ConflictReport> },
}

/// The working-tree actions of a branch switch or merge: paths to
/// remove, then files to write.
pub struct WorkPlan {
    pub removals: Vec<Vec<u8>>,
    pub writes: Vec<TreeFile>,
}

/// The file set of the commit HEAD points at, or empty when HEAD or
/// its tree cannot be followed.
pub open spec fn checkout_current_files(store: ObjectStore, refs: RefStore) -> Seq<TreeFileV> {
    match head_commit_spec(refs) {
        Some(c) => match crate::mergeeng::files_of_commit(store, c) {
            Some(f) => f,
            None => Seq::empty(),
        },
        None => Seq::empty(),
    }
}

/// The working-tree file at `i` is untracked (neither staged nor in the
/// current tree) and the target would overwrite it with different
/// content.
pub open spec fn untracked_at(
    working: Seq<TreeFile>,
    ix: Seq<crate::index::IndexEntryV>,
    cf: Seq<TreeFileV>,
    tf: Seq<TreeFileV>,
    i: int,
) -> bool {
    &&& find_path(ix, working[i]@.name) is None
    &&& file_at(cf, working[i]@.name) is None
    &&& match file_at(tf, working[i]@.name) {
        Some(t) => t != working[i]@.oid,
        None => false,
    }
}

/// Would the switch overwrite some untracked working-tree file?
pub open spec fn untracked_overwrite(
    working: Seq<TreeFile>,
    ix: Seq<crate::index::IndexEntryV>,
    cf: Seq<TreeFileV>,
    tf: Seq<TreeFileV>,
) -> bool {
    exists|i: int| 0 <= i < working.len() && untracked_at(working, ix, cf, tf, i)
}

/// No two files of the set share a name.
pub open spec fn distinct_names(tf: Seq<TreeFileV>) -> bool {
    forall|i: int, j: int| 0 <= i < j < tf.len() ==> (#[trigger] tf[i]).name != (#[trigger] tf[j]).name
}

/// The index after the target's changed files are staged: a target file
/// whose content differs from the current tree replaces the entry under
/// its path; every other path keeps its old entry.
pub open spec fn staged_after_adds(
    ix0: Seq<crate::index::IndexEntryV>,
    cf: Seq<TreeFileV>,
    tf: Seq<TreeFileV>,
    p: Seq<u8>,
) -> Option<crate::index::IndexEntryV> {
    match file_at(tf, p) {
        Some(t) => if file_at(cf, p) == Some(t) {
            find_path(ix0, p)
        } else {
            Some(crate::index::IndexEntryV { path: p, mtime: 0, object_id: t, mode: 0o100644 })
        },
        None => find_path(ix0, p),
    }
}

/// A path whose entry a branch switch drops: the target lacks it, the
/// current tree holds it, and the entry matches the current tree (no
/// staged change).
pub open spec fn drop_hit(
    cf: Seq<TreeFileV>,
    tf: Seq<TreeFileV>,
    pa: Seq<crate::index::IndexEntryV>,
    p: Seq<u8>,
) -> bool {
    &&& file_at(tf, p) is None
    &&& match (file_at(cf, p), find_path(pa, p)) {
        (Some(c), Some(en)) => en.object_id == c,
        _ => false,
    }
}

/// What the index holds under `p` after a branch switch: the target's
/// changed files staged, entries for files the target removed dropped
/// when they carried no staged change, everything else preserved.
pub open spec fn checkout_index_value(
    ix0: Seq<crate::index::IndexEntryV>,
    cf: Seq<TreeFileV>,
    tf: Seq<TreeFileV>,
    p: Seq<u8>,
) -> Option<crate::index::IndexEntryV> {
    if file_at(tf, p) is Some {
        staged_after_adds(ix0, cf, tf, p)
    } else {
        match (file_at(cf, p), find_path(ix0, p)) {
            (Some(c), Some(en)) => if en.object_id == c {
                None
            } else {
                Some(en)
            },
            (_, _) => find_path(ix0, p),
        }
    }
}

/// The names of `from` entries that `to` does not hold, in order.
pub open spec fn removes_of(from: Seq<TreeFileV>, to: Seq<TreeFileV>) -> Seq<Seq<u8>>
    decreases from.len(),
{
    if from.len() == 0 {
        Seq::empty()
    } else {
        removes_of(from.drop_last(), to) + if file_at(to, from.last().name) is None {
            seq![from.last().name]
        } else {
            Seq::<Seq<u8>>::empty()
        }
    }
}

/// Every object a merge of `ours` and `theirs` may read is present and
/// well-formed: both tips' file sets flatten, so does the file set of
/// every common ancestor, and every blob either file set names exists.
/// Under this the merge owes one of its three outcomes.
pub open spec fn merge_inputs_ok(store: ObjectStore, ours: Seq<u8>, theirs: Seq<u8>) -> bool {
    &&& crate::mergeeng::files_of_commit(store, ours) is Some
    &&& crate::mergeeng::files_of_commit(store, theirs) is Some
    &&& (forall|b: Seq<u8>|
        crate::ancestry::reachable(store, ours, b) && crate::ancestry::reachable(store, theirs, b)
            ==> #[trigger] crate::mergeeng::files_of_commit(store, b) is Some)
    &&& (forall|i: int|
        0 <= i < crate::mergeeng::files_of_commit(store, ours).unwrap().len() ==> store.find(
            (#[trigger] crate::mergeeng::files_of_commit(store, ours).unwrap()[i]).oid,
        ) is Some)
    &&& (forall|i: int|
        0 <= i < crate::mergeeng::files_of_commit(store, theirs).unwrap().len() ==> store.find(
            (#[trigger] crate::mergeeng::files_of_commit(store, theirs).unwrap()[i]).oid,
        ) is Some)
}

/// The three file sets a merge reconciles: ours and theirs flattened
/// from their commits, and a legitimate base file set.
pub open spec fn merge_view_ok(
    store: ObjectStore,
    ours: Seq<u8>,
    theirs: Seq<u8>,
    bf: Seq<TreeFileV>,
    of: Seq<TreeFileV>,
    tf: Seq<TreeFileV>,
) -> bool {
    &&& crate::mergeeng::files_of_commit(store, ours) == Some(of)
    &&& crate::mergeeng::files_of_commit(store, theirs) == Some(tf)
    &&& base_files_ok(store, ours, theirs, bf)
}

/// A legitimate base file set for merging `ours` and `theirs`: the
/// flattened tree of some common ancestor, or empty when the two
/// ancestries are disjoint.
pub open spec fn base_files_ok(
    store: ObjectStore,
    ours: Seq<u8>,
    theirs: Seq<u8>,
    bf: Seq<TreeFileV>,
) -> bool {
    (exists|b: Seq<u8>|
        crate::ancestry::reachable(store, ours, b) && crate::ancestry::reachable(store, theirs, b)
            && #[trigger] crate::mergeeng::files_of_commit(store, b) == Some(bf)) || ((forall|
        x: Seq<u8>,
    |
        !(crate::ancestry::reachable(store, ours, x) && crate::ancestry::reachable(
            store,
            theirs,
            x,
        ))) && bf == Seq::<TreeFileV>::empty())
}

/// A store whose packed records view as `a + b` finds an id exactly
/// when `a` or `b` holds it.
proof fn lemma_find_concat_views(
    packed: Seq<ObjRecord>,
    a: Seq<ObjRecord>,
    b: Seq<ObjRecord>,
    oid: Seq<u8>,
)
    requires
        crate::bundle::rec_views(packed) == crate::bundle::rec_views(a) + crate::bundle::rec_views(
            b,
        ),
    ensures
        find_rec(packed, oid) is Some <==> (find_rec(a, oid) is Some || find_rec(b, oid) is Some),
    decreases packed.len(),
{
    let rv = crate::bundle::rec_views(packed);
    assert(rv.len() == packed.len());
    if a.len() == 0 {
        assert(crate::bundle::rec_views(b) =~= rv);
        lemma_find_views_same(packed, b, oid);
    } else {
        if packed.len() > 0 {
            assert(rv[0] == crate::bundle::rec_views(a)[0]);
            assert(packed[0].oid@ == a[0].oid@);
            if packed[0].oid@ != oid {
                assert(crate::bundle::rec_views(packed.drop_first()) =~= crate::bundle::rec_views(
                    a.drop_first(),
                ) + crate::bundle::rec_views(b)) by {
                    assert forall|x: int|
                        0 <= x < packed.len() - 1 implies crate::bundle::rec_views(
                        packed.drop_first(),
                    )[x] == (crate::bundle::rec_views(a.drop_first()) + crate::bundle::rec_views(
                        b,
                    ))[x] by {
                        assert(packed.drop_first()[x] == packed[x + 1]);
                        assert(rv[x + 1] == (crate::bundle::rec_views(a)
                            + crate::bundle::rec_views(b))[x + 1]);
                        if x < a.len() - 1 {
                            assert(a.drop_first()[x] == a[x + 1]);
                        }
                    }
                }
                lemma_find_concat_views(packed.drop_first(), a.drop_first(), b, oid);
            }
        }
    }
}

/// Stores with equal record views find the same ids.
proof fn lemma_find_views_same(a: Seq<ObjRecord>, b: Seq<ObjRecord>, oid: Seq<u8>)
    requires
        crate::bundle::rec_views(a) == crate::bundle::rec_views(b),
    ensures
        find_rec(a, oid) is Some <==> find_rec(b, oid) is Some,
    decreases a.len(),
{
    assert(crate::bundle::rec_views(a).len() == a.len());
    assert(crate::bundle::rec_views(b).len() == b.len());
    if a.len() > 0 {
        assert(crate::bundle::rec_views(a)[0] == crate::bundle::rec_views(b)[0]);
        assert(a[0].oid@ == b[0].oid@);
        if a[0].oid@ != oid {
            assert(crate::bundle::rec_views(a.drop_first()) =~= crate::bundle::rec_views(
                b.drop_first(),
            )) by {
                assert forall|x: int|
                    0 <= x < a.len() - 1 implies crate::bundle::rec_views(a.drop_first())[x]
                    == crate::bundle::rec_views(b.drop_first())[x] by {
                    assert(a.drop_first()[x] == a[x + 1]);
                    assert(b.drop_first()[x] == b[x + 1]);
                    assert(crate::bundle::rec_views(a)[x + 1] == crate::bundle::rec_views(
                        b,
                    )[x + 1]);
                }
            }
            lemma_find_views_same(a.drop_first(), b.drop_first(), oid);
        }
    }
}


/// Reading a full `refs/heads/...` name consults exactly that entry.
proof fn lemma_refs_full_name(refs: RefStore, suffix: Seq<u8>)
    ensures
        crate::refs::read_ref_spec(refs, heads_prefix() + suffix) == find_ref(
            refs.entries@,
            heads_prefix() + suffix,
        ),
{
    let name = heads_prefix() + suffix;
    assert(name.subrange(0, 5) =~= crate::lits::refs_prefix());
    assert(name != crate::lits::head_name());
    assert(crate::refs::resolve_spec(refs.entries@, name) == name);
}

/// The file set read for the merge base is a legitimate one.
proof fn lemma_base_files_witness(
    store: ObjectStore,
    ours: Seq<u8>,
    theirs: Seq<u8>,
    base: Option<Vec<u8>>,
    bf: Seq<TreeFileV>,
)
    requires
        match base {
            Some(b) => crate::ancestry::reachable(store, ours, b@) && crate::ancestry::reachable(
                store,
                theirs,
                b@,
            ) && crate::mergeeng::files_of_commit(store, b@) == Some(bf),
            None => (forall|x: Seq<u8>|
                !(crate::ancestry::reachable(store, ours, x) && crate::ancestry::reachable(
                    store,
                    theirs,
                    x,
                ))) && bf == Seq::<TreeFileV>::empty(),
        },
    ensures
        base_files_ok(store, ours, theirs, bf),
{
    match base {
        Some(b) => {
            assert(crate::mergeeng::files_of_commit(store, b@) == Some(bf));
        },
        None => {},
    }
}

/// With distinct names, each element answers for its own name.
proof fn lemma_file_at_self(files: Seq<TreeFileV>, x: int)
    requires
        forall|i: int, j: int|
            0 <= i < j < files.len() ==> (#[trigger] files[i]).name != (#[trigger] files[j]).name,
        0 <= x < files.len(),
    ensures
        file_at(files, files[x].name) == Some(files[x].oid),
    decreases x,
{
    if x == 0 {
    } else {
        assert(files[0].name != files[x].name);
        let t = files.drop_first();
        assert forall|i: int, j: int| 0 <= i < j < t.len() implies (#[trigger] t[i]).name != (
        #[trigger] t[j]).name by {
            assert(t[i] == files[i + 1] && t[j] == files[j + 1]);
        }
        assert(t[x - 1] == files[x]);
        lemma_file_at_self(t, x - 1);
    }
}

/// Every oid a commit's flattened tree yields is 40 lowercase hex
/// characters, and every name is free of NUL bytes.
proof fn lemma_files_of_commit_oids(store: ObjectStore, c: Seq<u8>)
    requires
        crate::mergeeng::files_of_commit(store, c) is Some,
    ensures
        forall|i: int|
            0 <= i < crate::mergeeng::files_of_commit(store, c).unwrap().len() ==> is_hex_lower(
                (#[trigger] crate::mergeeng::files_of_commit(store, c).unwrap()[i]).oid,
            ) && crate::mergeeng::files_of_commit(store, c).unwrap()[i].oid.len() == 40
                && crate::index::path_no_nul(
                crate::mergeeng::files_of_commit(store, c).unwrap()[i].name,
            ),
{
    let d = store.find(c).unwrap().1;
    let tid = commit_tree(d).unwrap();
    let td = store.find(tid).unwrap().1;
    lemma_tree_files_oids(td);
}

/// The reconciled file set carries well-formed oids: every kept value
/// comes from one of the two sides.
proof fn lemma_merged_files_valid(
    bf: Seq<TreeFileV>,
    of: Seq<TreeFileV>,
    tf: Seq<TreeFileV>,
    mf: Seq<TreeFileV>,
    base_v: Seq<TreeFile>,
    ours_v: Seq<TreeFile>,
    theirs_v: Seq<TreeFile>,
    merged_v: Seq<TreeFile>,
)
    requires
        bf == views_of(base_v),
        of == views_of(ours_v),
        tf == views_of(theirs_v),
        mf == views_of(merged_v),
        forall|i: int|
            0 <= i < of.len() ==> is_hex_lower((#[trigger] of[i]).oid) && of[i].oid.len() == 40
                && crate::index::path_no_nul(of[i].name),
        forall|i: int|
            0 <= i < tf.len() ==> is_hex_lower((#[trigger] tf[i]).oid) && tf[i].oid.len() == 40
                && crate::index::path_no_nul(tf[i].name),
        forall|x: int, y: int|
            0 <= x < y < mf.len() ==> (#[trigger] mf[x]).name != (#[trigger] mf[y]).name,
        forall|p: Seq<u8>|
            #[trigger] file_at(mf, p) == merge_value(file_at(bf, p), file_at(of, p), file_at(tf, p)),
    ensures
        forall|x: int|
            0 <= x < merged_v.len() ==> is_hex_lower((#[trigger] merged_v[x])@.oid) && merged_v[
                x
            ]@.oid.len() == 40 && crate::index::path_no_nul(merged_v[x]@.name),
{
    assert forall|x: int| 0 <= x < merged_v.len() implies is_hex_lower(
        (#[trigger] merged_v[x])@.oid,
    ) && merged_v[x]@.oid.len() == 40 && crate::index::path_no_nul(merged_v[x]@.name) by {
        assert(mf[x] == merged_v[x]@);
        lemma_file_at_self(mf, x);
        let p = mf[x].name;
        let v = mf[x].oid;
        assert(file_at(mf, p) == Some(v));
        assert(merge_value(file_at(bf, p), file_at(of, p), file_at(tf, p)) == Some(v));
        if file_at(of, p) == Some(v) {
            crate::mergeeng::lemma_file_at_index_pub(of, p);
            let i = choose|i: int|
                0 <= i < of.len() && (#[trigger] of[i]).name == p && Some(of[i].oid) == file_at(
                    of,
                    p,
                );
        } else {
            assert(file_at(tf, p) == Some(v));
            crate::mergeeng::lemma_file_at_index_pub(tf, p);
            let i = choose|i: int|
                0 <= i < tf.len() && (#[trigger] tf[i]).name == p && Some(tf[i].oid) == file_at(
                    tf,
                    p,
                );
        }
    }
}

/// Is a path staged in the index?
fn find_entry_exists(ix: &Index, path: &[u8]) -> (r: bool)
    ensures
        r == (find_path(ix@, path@) is Some),
{
    let entries = ix.get_entries();
    let ghost m = ix@;
    let mut i: usize = 0;
    proof {
        assert(m.skip(0) =~= m);
    }
    while i < entries.len()
        invariant
            i <= entries@.len(),
            m == ix@,
            entries@.map_values(|e: crate::index::IndexEntry| e@) == m,
            find_path(m, path@) == find_path(m.skip(i as int), path@),
        decreases entries@.len() - i,
    {
        proof {
            assert(m[i as int] == entries@[i as int]@);
        }
        if bytes_eq(entries[i].path.as_slice(), path) {
            proof {
                assert(m.skip(i as int).len() > 0);
                assert(m.skip(i as int)[0] == m[i as int]);
                assert(m.skip(i as int)[0].path == path@);
                assert(find_path(m.skip(i as int), path@) is Some);
            }
            return true;
        }
        proof {
            assert(m.skip(i as int).drop_first() =~= m.skip(i as int + 1));
            assert(m.skip(i as int)[0] == m[i as int]);
        }
        i = i + 1;
    }
    false
}

/// Rebuild an index from a file set with distinct names: afterwards a
/// path is staged exactly when the file set holds it.
fn index_from_files(files: &Vec<TreeFile>) -> (r: Index)
    requires
        forall|x: int, y: int|
            0 <= x < y < files@.len() ==> (#[trigger] files@[x])@.name != (
            #[trigger] files@[y])@.name,
        forall|x: int|
            0 <= x < files@.len() ==> is_hex_lower((#[trigger] files@[x])@.oid) && files@[
                x
            ]@.oid.len() == 40 && crate::index::path_no_nul(files@[x]@.name),
    ensures
        r.wf(),
        forall|p: Seq<u8>|
            match #[trigger] find_path(r@, p) {
                Some(e) => file_at(views_of(files@), p) == Some(e.object_id) && e.mode == 0o100644
                    && e.path == p,
                None => file_at(views_of(files@), p) is None,
            },
{
    let mut ix = Index::new();
    let mut k: usize = 0;
    proof {
        assert forall|p: Seq<u8>| true implies match #[trigger] find_path(ix@, p) {
            Some(e) => file_at(views_of(files@.take(0)), p) == Some(e.object_id) && e.mode
                == 0o100644 && e.path == p,
            None => file_at(views_of(files@.take(0)), p) is None,
        } by {
            assert(ix@.len() == 0);
            assert(views_of(files@.take(0)) =~= Seq::<TreeFileV>::empty());
        }
    }
    while k < files.len()
        invariant
            k <= files@.len(),
            ix.wf(),
            forall|x: int, y: int|
                0 <= x < y < files@.len() ==> (#[trigger] files@[x])@.name != (
                #[trigger] files@[y])@.name,
            forall|x: int|
                0 <= x < files@.len() ==> is_hex_lower((#[trigger] files@[x])@.oid) && files@[
                    x
                ]@.oid.len() == 40 && crate::index::path_no_nul(files@[x]@.name),
            forall|p: Seq<u8>|
                match #[trigger] find_path(ix@, p) {
                    Some(e) => file_at(views_of(files@.take(k as int)), p) == Some(e.object_id)
                        && e.mode == 0o100644 && e.path == p,
                    None => file_at(views_of(files@.take(k as int)), p) is None,
                },
        decreases files@.len() - k,
    {
        let ghost ix0 = ix@;
        ix.add_file(
            files[k].name.as_slice(),
            0,
            files[k].oid.as_slice(),
        );
        proof {
            let fv = files@[k as int]@;
            let prior = views_of(files@.take(k as int));
            let now = views_of(files@.take(k + 1));
            assert(now =~= prior.push(fv));
            assert(file_at(prior, fv.name) is None) by {
                assert forall|m: int| 0 <= m < prior.len() implies (#[trigger] prior[m]).name
                    != fv.name by {
                    assert(prior[m] == files@.take(k as int)[m]@);
                    assert(files@[m]@.name != files@[k as int]@.name);
                }
                crate::mergeeng::lemma_file_at_absent_pub(prior, fv.name);
            }
            assert forall|p: Seq<u8>| true implies match #[trigger] find_path(ix@, p) {
                Some(e) => file_at(now, p) == Some(e.object_id) && e.mode == 0o100644 && e.path
                    == p,
                None => file_at(now, p) is None,
            } by {
                crate::mergeeng::lemma_file_at_push_pub(prior, fv, p);
                if p == fv.name {
                    assert(find_path(ix@, p) == Some(
                        crate::index::IndexEntryV {
                            path: fv.name,
                            mtime: 0,
                            object_id: fv.oid,
                            mode: 0o100644,
                        },
                    ));
                } else {
                    assert(find_path(ix@, p) == find_path(ix0, p));
                }
            }
        }
        k = k + 1;
    }
    proof {
        assert(files@.take(files@.len() as int) =~= files@);
    }
    ix
}

/// Resolve a remote argument: a `http://` or `https://` URL stands for
/// itself; any other name is looked up in the configuration.
/// `NotFound` exactly when the name is neither.
pub fn resolve_url(repo: &Repository, remote_or_url: &[u8]) -> (r: Result<
    (Vec<u8>, Vec<u8>),
    GitError,
>)
    ensures
        ({
            let is_url = (remote_or_url@.len() >= 7 && remote_or_url@.subrange(0, 7)
                == http_scheme()) || (remote_or_url@.len() >= 8 && remote_or_url@.subrange(0, 8)
                == https_scheme());
            let looked = crate::config::find_cfg(
                repo.config.data@.map_values(|e: crate::config::ConfigEntry| e@),
                remote_section_open() + remote_or_url@ + quote_mark(),
                url_key(),
            );
            match r {
                Ok((u, n)) => n@ == remote_or_url@ && if is_url {
                    u@ == remote_or_url@
                } else {
                    looked == Some(u@)
                },
                Err(e) => e == GitError::NotFound && !is_url && looked is None,
            }
        }),
{
    let hs = http_scheme_bytes();
    let hss = https_scheme_bytes();
    if starts_with(remote_or_url, hs.as_slice()) || starts_with(remote_or_url, hss.as_slice()) {
        return Ok((copy_bytes(remote_or_url), copy_bytes(remote_or_url)));
    }
    match repo.config.get_remote_url(remote_or_url) {
        Some(u) => Ok((u, copy_bytes(remote_or_url))),
        None => Err(GitError::NotFound),
    }
}

} // verus!
