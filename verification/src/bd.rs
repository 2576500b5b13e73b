//! The scanning engine: walks directory trees given as in-memory entries,
//! hashes each included file's content, and groups file paths by digest.
//!
//! The filesystem itself is read by the caller, which hands the engine a
//! snapshot: an `Entry` tree in which each file carries its full content
//! (or the mark that reading it failed) and each directory its listing (or
//! the mark that listing it failed). The engine's traversal, extension
//! filtering, hashing, grouping and pruning are all verified against the
//! spec-level model below.
use vstd::prelude::*;

use crate::hash::digest_of;
use crate::hash::hash_content;

verus! {

/// ASCII lowercase code point of a character: letters `A`..`Z` map to
/// `a`..`z`, every other character is unchanged.
pub open spec fn lower(c: char) -> int {
    if 'A' <= c && c <= 'Z' {
        c as int + 32
    } else {
        c as int
    }
}

/// Two character sequences are equal up to ASCII case.
pub open spec fn eq_ignore_case(a: Seq<char>, b: Seq<char>) -> bool {
    a.len() == b.len() && forall|i: int| 0 <= i < a.len() ==> lower(a[i]) == lower(b[i])
}

/// Case-insensitive (ASCII) equality of two strings.
pub fn str_eq_ignore_case(a: &str, b: &str) -> (r: bool)
    ensures
        r == eq_ignore_case(a@, b@),
{
    let alen = a.unicode_len();
    let blen = b.unicode_len();
    if alen != blen {
        return false;
    }
    let mut i: usize = 0;
    while i < alen
        invariant
            i <= alen,
            alen == a@.len(),
            alen == b@.len(),
            forall|j: int| 0 <= j < i ==> lower(a@[j]) == lower(b@[j]),
        decreases alen - i,
    {
        let ca = a.get_char(i) as u32;
        let cb = b.get_char(i) as u32;
        let la = if 65 <= ca && ca <= 90 { ca + 32 } else { ca };
        let lb = if 65 <= cb && cb <= 90 { cb + 32 } else { cb };
        if la != lb {
            return false;
        }
        i = i + 1;
    }
    true
}

/// A regular file in the snapshot: its path, the extension of its name (if
/// any, without the leading dot), and its full byte content. `content` is
/// `None` when opening or reading the file failed.
pub struct FileNode {
    pub path: String,
    pub ext: Option<String>,
    pub content: Option<Vec<u8>>,
}

/// A directory in the snapshot. `readable` is false when listing the
/// directory failed; its entries are then taken to be unknown.
pub struct DirNode {
    pub path: String,
    pub readable: bool,
    pub entries: Vec<Entry>,
}

/// One entry of a directory tree snapshot.
pub enum Entry {
    File(FileNode),
    Dir(DirNode),
}

/// Spec-level image of a file: plain sequences in place of the strings.
pub struct FileMeta {
    pub path: Seq<char>,
    pub ext: Option<Seq<char>>,
    pub content: Option<Seq<u8>>,
}

/// The spec-level image of a file node.
pub open spec fn file_meta(f: FileNode) -> FileMeta {
    FileMeta {
        path: f.path@,
        ext: match f.ext {
            Some(e) => Some(e@),
            None => None,
        },
        content: match f.content {
            Some(c) => Some(c@),
            None => None,
        },
    }
}

/// The files under an entry, in traversal order: a file is itself; a
/// directory contributes the files of its entries in listing order.
pub open spec fn files_of(e: Entry) -> Seq<FileMeta>
    decreases e,
{
    match e {
        Entry::File(f) => seq![file_meta(f)],
        Entry::Dir(d) => files_of_seq(d.entries@),
    }
}

/// The files under a sequence of entries, in order.
pub open spec fn files_of_seq(es: Seq<Entry>) -> Seq<FileMeta>
    decreases es,
{
    if es.len() == 0 {
        Seq::empty()
    } else {
        files_of_seq(es.drop_last()) + files_of(es.last())
    }
}

/// Whether a file passes the extension filter: with no filter every file is
/// included; with a filter the file must have an extension that matches one
/// listed extension up to ASCII case.
pub open spec fn passes(f: FileMeta, filt: Option<Seq<Seq<char>>>) -> bool {
    match filt {
        None => true,
        Some(exts) => match f.ext {
            Some(x) => exists|i: int| 0 <= i < exts.len() && eq_ignore_case(x, exts[i]),
            None => false,
        },
    }
}

/// The spec-level image of an optional extension allow-list.
pub open spec fn filt_view(o: Option<Vec<String>>) -> Option<Seq<Seq<char>>> {
    match o {
        Some(v) => Some(v.deep_view()),
        None => None,
    }
}

/// A scan error: the first failure met in traversal order aborts the scan.
#[derive(Debug)]
pub enum ScanError {
    /// A directory could not be listed.
    DirUnreadable { path: String },
    /// An included file could not be opened or read.
    FileUnreadable { path: String },
}

/// Spec-level image of a scan error.
pub struct ErrMeta {
    pub dir: bool,
    pub path: Seq<char>,
}

impl View for ScanError {
    type V = ErrMeta;

    open spec fn view(&self) -> ErrMeta {
        match self {
            ScanError::DirUnreadable { path } => ErrMeta { dir: true, path: path@ },
            ScanError::FileUnreadable { path } => ErrMeta { dir: false, path: path@ },
        }
    }
}

impl ScanError {
    /// The path of the entry that failed.
    pub fn path(&self) -> (r: &String)
        ensures
            r@ == self@.path,
    {
        match self {
            ScanError::DirUnreadable { path } => path,
            ScanError::FileUnreadable { path } => path,
        }
    }

    /// A description of the failure, for reporting.
    pub fn message(&self) -> (r: String)
        ensures
            r@ == message_of(self@),
    {
        proof {
            reveal_strlit("cannot read directory: ");
            reveal_strlit("cannot read file: ");
        }
        let mut s = String::new();
        match self {
            ScanError::DirUnreadable { path } => {
                s.append("cannot read directory: ");
                s.append(path.as_str());
            },
            ScanError::FileUnreadable { path } => {
                s.append("cannot read file: ");
                s.append(path.as_str());
            },
        }
        s
    }
}

/// The description of a scan error: the kind of failure, then the path.
pub open spec fn message_of(e: ErrMeta) -> Seq<char> {
    (if e.dir {
        "cannot read directory: "@
    } else {
        "cannot read file: "@
    }) + e.path
}

/// The first error under an entry, in traversal order: an unlistable
/// directory, or an included file whose content could not be read. A file
/// that the extension filter excludes is never opened, so it raises no
/// error.
pub open spec fn first_err(e: Entry, filt: Option<Seq<Seq<char>>>) -> Option<ErrMeta>
    decreases e,
{
    match e {
        Entry::File(f) => if passes(file_meta(f), filt) && f.content is None {
            Some(ErrMeta { dir: false, path: f.path@ })
        } else {
            None
        },
        Entry::Dir(d) => if !d.readable {
            Some(ErrMeta { dir: true, path: d.path@ })
        } else {
            first_err_seq(d.entries@, filt)
        },
    }
}

/// The first error under a sequence of entries, in order.
pub open spec fn first_err_seq(es: Seq<Entry>, filt: Option<Seq<Seq<char>>>) -> Option<ErrMeta>
    decreases es,
{
    if es.len() == 0 {
        None
    } else {
        match first_err_seq(es.drop_last(), filt) {
            Some(er) => Some(er),
            None => first_err(es.last(), filt),
        }
    }
}

/// A digest paired with the path of a file that produced it.
pub struct HashedFile {
    pub digest: Seq<char>,
    pub path: Seq<char>,
}

/// The digest/path pairs of a file sequence, in order. Meaningful for files
/// whose content is present; the scan only relies on it for those.
pub open spec fn hashed_of(files: Seq<FileMeta>) -> Seq<HashedFile> {
    files.map_values(|f: FileMeta| HashedFile { digest: digest_of(f.content->0), path: f.path })
}

/// The files of a sequence that pass the extension filter, in order.
pub open spec fn included(files: Seq<FileMeta>, filt: Option<Seq<Seq<char>>>) -> Seq<FileMeta> {
    files.filter(|f: FileMeta| passes(f, filt))
}

/// One duplicate group: a digest and the paths of the files that produced
/// it, in traversal order.
pub struct GroupView {
    pub digest: Seq<char>,
    pub paths: Seq<Seq<char>>,
}

/// Appends a path to the group of its digest, keeping group order; a new
/// group is opened at the end when the digest is new.
pub open spec fn insert_g(gs: Seq<GroupView>, d: Seq<char>, p: Seq<char>) -> Seq<GroupView>
    decreases gs.len(),
{
    if gs.len() == 0 {
        seq![GroupView { digest: d, paths: seq![p] }]
    } else if gs[0].digest == d {
        seq![GroupView { digest: d, paths: gs[0].paths.push(p) }] + gs.drop_first()
    } else {
        seq![gs[0]] + insert_g(gs.drop_first(), d, p)
    }
}

/// Inserts each digest/path pair in order, starting from `gs`.
pub open spec fn build(gs: Seq<GroupView>, hs: Seq<HashedFile>) -> Seq<GroupView>
    decreases hs.len(),
{
    if hs.len() == 0 {
        gs
    } else {
        build(insert_g(gs, hs[0].digest, hs[0].path), hs.drop_first())
    }
}

/// Discards the groups with fewer than two paths.
pub open spec fn prune(gs: Seq<GroupView>) -> Seq<GroupView> {
    gs.filter(|g: GroupView| g.paths.len() > 1)
}

/// The full scan of a sequence of roots: the files under the roots in
/// order, narrowed to those passing the filter, hashed, grouped by digest,
/// and pruned of single-member groups.
pub open spec fn scan_result(roots: Seq<Entry>, filt: Option<Seq<Seq<char>>>) -> Seq<GroupView> {
    prune(build(Seq::empty(), hashed_of(included(files_of_seq(roots), filt))))
}

/// The mapping from digest to duplicate paths: group order is the order in
/// which each digest was first seen, paths stand in traversal order.
#[derive(Debug)]
pub struct DigestGroups {
    pub groups: Vec<(String, Vec<String>)>,
}

impl View for DigestGroups {
    type V = Seq<GroupView>;

    open spec fn view(&self) -> Seq<GroupView> {
        self.groups@.map_values(
            |g: (String, Vec<String>)| GroupView { digest: g.0@, paths: g.1.deep_view() },
        )
    }
}

/// Inserting a digest already present appends the path to its group and
/// leaves the rest of the groups unchanged.
pub proof fn lemma_insert_found(gs: Seq<GroupView>, d: Seq<char>, p: Seq<char>, i: int)
    requires
        0 <= i < gs.len(),
        gs[i].digest == d,
        forall|j: int| 0 <= j < i ==> gs[j].digest != d,
    ensures
        insert_g(gs, d, p) =~= gs.update(i, GroupView { digest: d, paths: gs[i].paths.push(p) }),
    decreases i,
{
    if i == 0 {
        assert(insert_g(gs, d, p) =~= gs.update(
            0,
            GroupView { digest: d, paths: gs[0].paths.push(p) },
        ));
    } else {
        lemma_insert_found(gs.drop_first(), d, p, i - 1);
        assert(insert_g(gs, d, p) =~= seq![gs[0]] + insert_g(gs.drop_first(), d, p));
        assert(gs.drop_first().update(
            i - 1,
            GroupView { digest: d, paths: gs[i].paths.push(p) },
        ) =~= gs.update(i, GroupView { digest: d, paths: gs[i].paths.push(p) }).drop_first());
    }
}

/// Inserting a digest not yet present opens a new group at the end.
pub proof fn lemma_insert_absent(gs: Seq<GroupView>, d: Seq<char>, p: Seq<char>)
    requires
        forall|j: int| 0 <= j < gs.len() ==> gs[j].digest != d,
    ensures
        insert_g(gs, d, p) =~= gs.push(GroupView { digest: d, paths: seq![p] }),
    decreases gs.len(),
{
    if gs.len() > 0 {
        lemma_insert_absent(gs.drop_first(), d, p);
        assert(seq![gs[0]] + gs.drop_first().push(GroupView { digest: d, paths: seq![p] })
            =~= gs.push(GroupView { digest: d, paths: seq![p] }));
    }
}

impl DigestGroups {
    /// An empty mapping.
    pub fn new() -> (r: DigestGroups)
        ensures
            r@ =~= Seq::<GroupView>::empty(),
    {
        DigestGroups { groups: Vec::new() }
    }

    /// Appends `path` to the group keyed by `digest`, creating the group if
    /// the digest is new.
    pub fn insert(&mut self, digest: String, path: String)
        ensures
            final(self)@ == insert_g(old(self)@, digest@, path@),
    {
        let mut i: usize = 0;
        while i < self.groups.len()
            invariant
                i <= self.groups@.len(),
                self@ == old(self)@,
                forall|j: int| 0 <= j < i ==> #[trigger] self@[j].digest != digest@,
            decreases self.groups@.len() - i,
        {
            if self.groups[i].0 == digest {
                let ghost oldpairs = self.groups@;
                let mut pair = self.groups.remove(i);
                pair.1.push(path);
                self.groups.insert(i, pair);
                proof {
                    lemma_insert_found(old(self)@, digest@, path@, i as int);
                    assert(self.groups@ =~= oldpairs.update(i as int, pair));
                    assert(pair.1.deep_view() =~= old(self)@[i as int].paths.push(path@));
                    assert forall|j: int| 0 <= j < self@.len() implies self@[j] == insert_g(
                        old(self)@,
                        digest@,
                        path@,
                    )[j] by {
                        if j != i {
                            assert(self.groups@[j] == oldpairs[j]);
                        }
                    }
                    assert(self@ =~= insert_g(old(self)@, digest@, path@));
                }
                return;
            }
            i = i + 1;
        }
        let mut paths: Vec<String> = Vec::new();
        paths.push(path);
        proof {
            lemma_insert_absent(old(self)@, digest@, path@);
            assert(paths.deep_view() =~= seq![path@]);
        }
        self.groups.push((digest, paths));
        proof {
            assert(self@ =~= insert_g(old(self)@, digest@, path@));
        }
    }
}

/// The extension filter distributes over appended file sequences.
pub proof fn lemma_included_append(a: Seq<FileMeta>, b: Seq<FileMeta>, filt: Option<Seq<Seq<char>>>)
    ensures
        included(a + b, filt) == included(a, filt) + included(b, filt),
{
    Seq::<FileMeta>::filter_distributes_over_add(a, b, |f: FileMeta| passes(f, filt));
}

/// Hashing distributes over appended file sequences.
pub proof fn lemma_hashed_append(a: Seq<FileMeta>, b: Seq<FileMeta>)
    ensures
        hashed_of(a + b) == hashed_of(a) + hashed_of(b),
{
    assert(hashed_of(a + b) =~= hashed_of(a) + hashed_of(b));
}

/// Grouping a concatenation is grouping the first part, then the second.
pub proof fn lemma_build_append(gs: Seq<GroupView>, a: Seq<HashedFile>, b: Seq<HashedFile>)
    ensures
        build(gs, a + b) == build(build(gs, a), b),
    decreases a.len(),
{
    if a.len() == 0 {
        assert(a + b =~= b);
    } else {
        assert((a + b)[0] == a[0]);
        assert((a + b).drop_first() =~= a.drop_first() + b);
        lemma_build_append(insert_g(gs, a[0].digest, a[0].path), a.drop_first(), b);
    }
}

/// Once a prefix of the entries holds an error, that error is the first
/// error of the whole sequence.
pub proof fn lemma_first_err_extend(es: Seq<Entry>, filt: Option<Seq<Seq<char>>>, j: int)
    requires
        0 <= j <= es.len(),
        first_err_seq(es.take(j), filt) is Some,
    ensures
        first_err_seq(es, filt) == first_err_seq(es.take(j), filt),
    decreases es.len(),
{
    if j == es.len() {
        assert(es.take(j) =~= es);
    } else {
        assert(es.drop_last().take(j) =~= es.take(j));
        lemma_first_err_extend(es.drop_last(), filt, j);
    }
}

/// Whether some listed extension matches `x` up to ASCII case.
fn contains_ci(exts: &Vec<String>, x: &String) -> (r: bool)
    ensures
        r == exists|i: int|
            0 <= i < exts.deep_view().len() && eq_ignore_case(x@, exts.deep_view()[i]),
{
    let mut j: usize = 0;
    while j < exts.len()
        invariant
            j <= exts@.len(),
            forall|i: int| 0 <= i < j ==> !eq_ignore_case(x@, exts.deep_view()[i]),
        decreases exts@.len() - j,
    {
        if str_eq_ignore_case(x.as_str(), exts[j].as_str()) {
            proof {
                assert(eq_ignore_case(x@, exts.deep_view()[j as int]));
            }
            return true;
        }
        j = j + 1;
    }
    false
}

/// A sink for the per-file progress indication the scan emits as each file
/// is hashed. The indication is observable but not part of the functional
/// contract, so the trait promises nothing of it.
pub trait ProgressSink {
    /// Notes the path of the file being processed.
    fn report(&mut self, path: &str);
}

/// A progress sink that discards the indication.
pub struct NoProgress;

impl ProgressSink for NoProgress {
    fn report(&mut self, _path: &str) {
    }
}

/// Scans one entry: appends the digest/path pair of every included file
/// under it to `groups`, in traversal order, or stops at the first error.
#[verifier::loop_isolation(false)]
fn scan_entry<P: ProgressSink>(
    groups: &mut DigestGroups,
    e: &Entry,
    include_ext: &Option<Vec<String>>,
    progress: &mut P,
) -> (r: Result<(), ScanError>)
    ensures
        match r {
            Ok(_) => first_err(*e, filt_view(*include_ext)) is None && final(groups)@ == build(
                old(groups)@,
                hashed_of(included(files_of(*e), filt_view(*include_ext))),
            ),
            Err(er) => first_err(*e, filt_view(*include_ext)) == Some(er@),
        },
    decreases *e,
{
    let ghost fv = filt_view(*include_ext);
    match e {
        Entry::File(f) => {
            let ghost m = file_meta(*f);
            let inc: bool = match include_ext {
                None => true,
                Some(exts) => match &f.ext {
                    Some(x) => contains_ci(exts, x),
                    None => false,
                },
            };
            proof {
                reveal_with_fuel(Seq::<_>::filter, 2);
                assert(inc == passes(m, fv));
                assert(files_of(*e) =~= seq![m]);
                let pred = |f: FileMeta| passes(f, fv);
                let s1 = seq![m];
                assert(s1.drop_last() =~= Seq::<FileMeta>::empty());
                assert(s1.drop_last().filter(pred) =~= Seq::<FileMeta>::empty());
                assert(s1.last() == m);
                assert(s1.filter(pred) == if pred(m) {
                    s1.drop_last().filter(pred).push(m)
                } else {
                    s1.drop_last().filter(pred)
                });
                assert(included(s1, fv) == s1.filter(pred));
            }
            if !inc {
                proof {
                    assert(included(files_of(*e), fv) =~= Seq::<FileMeta>::empty());
                    assert(hashed_of(Seq::<FileMeta>::empty()) =~= Seq::<HashedFile>::empty());
                }
                return Ok(());
            }
            match &f.content {
                None => Err(ScanError::FileUnreadable { path: f.path.clone() }),
                Some(c) => {
                    let digest = hash_content(c);
                    progress.report(f.path.as_str());
                    groups.insert(digest, f.path.clone());
                    proof {
                        assert(included(files_of(*e), fv) =~= seq![m]);
                        let h = HashedFile { digest: digest_of(c@), path: f.path@ };
                        assert(hashed_of(seq![m]) =~= seq![h]);
                        assert(seq![h].drop_first() =~= Seq::<HashedFile>::empty());
                        assert(build(insert_g(old(groups)@, h.digest, h.path), seq![
                            h,
                        ].drop_first()) == insert_g(old(groups)@, h.digest, h.path));
                        assert(build(old(groups)@, seq![h]) == insert_g(
                            old(groups)@,
                            h.digest,
                            h.path,
                        ));
                        assert(groups@ == insert_g(old(groups)@, h.digest, h.path));
                    }
                    Ok(())
                },
            }
        },
        Entry::Dir(d) => {
            if !d.readable {
                return Err(ScanError::DirUnreadable { path: d.path.clone() });
            }
            let n = d.entries.len();
            let mut i: usize = 0;
            while i < n
                invariant
                    i <= n,
                    first_err_seq(d.entries@.take(i as int), fv) is None,
                    groups@ == build(
                        old(groups)@,
                        hashed_of(included(files_of_seq(d.entries@.take(i as int)), fv)),
                    ),
                decreases n - i,
            {
                let ghost pre = d.entries@.take(i as int);
                let ghost fi = files_of(d.entries@[i as int]);
                let r = scan_entry(groups, &d.entries[i], include_ext, progress);
                proof {
                    assert(d.entries@.take(i + 1int).drop_last() =~= pre);
                    assert(d.entries@.take(i + 1int).last() == d.entries@[i as int]);
                }
                match r {
                    Err(er) => {
                        proof {
                            assert(first_err_seq(d.entries@.take(i + 1int), fv) == Some(er@));
                            lemma_first_err_extend(d.entries@, fv, i + 1int);
                            assert(d.entries@.take(n as int) =~= d.entries@);
                        }
                        return Err(er);
                    },
                    Ok(_) => {
                        proof {
                            assert(files_of_seq(d.entries@.take(i + 1int)) == files_of_seq(pre)
                                + fi);
                            lemma_included_append(files_of_seq(pre), fi, fv);
                            lemma_hashed_append(included(files_of_seq(pre), fv), included(fi, fv));
                            lemma_build_append(
                                old(groups)@,
                                hashed_of(included(files_of_seq(pre), fv)),
                                hashed_of(included(fi, fv)),
                            );
                        }
                    },
                }
                i = i + 1;
            }
            proof {
                assert(d.entries@.take(n as int) =~= d.entries@);
            }
            Ok(())
        },
    }
}

/// The scan engine: one or more root entries and an optional extension
/// allow-list.
pub struct Bulldozer {
    pub base_path: Vec<Entry>,
    pub include_ext: Option<Vec<String>>,
}

/// What `run` returns: `Ok` exactly when no entry failed, and then the
/// pruned digest groups of the scan; otherwise the first error in traversal
/// order.
pub open spec fn run_post(
    roots: Seq<Entry>,
    filt: Option<Seq<Seq<char>>>,
    r: Result<DigestGroups, ScanError>,
) -> bool {
    match r {
        Ok(g) => first_err_seq(roots, filt) is None && g@ == scan_result(roots, filt),
        Err(er) => first_err_seq(roots, filt) == Some(er@),
    }
}

impl Bulldozer {
    /// A scanner over the given root entries, with no extension filter.
    pub fn new(base_path: Vec<Entry>) -> (r: Bulldozer)
        ensures
            r.base_path == base_path,
            r.include_ext is None,
    {
        Bulldozer { base_path, include_ext: None }
    }

    /// Sets or clears the extension allow-list.
    pub fn set_include_ext(&mut self, include_ext: Option<Vec<String>>)
        ensures
            final(self).base_path == old(self).base_path,
            final(self).include_ext == include_ext,
    {
        self.include_ext = include_ext;
    }

    /// Scans the roots without progress indication.
    pub fn run(&self) -> (r: Result<DigestGroups, ScanError>)
        ensures
            run_post(self.base_path@, filt_view(self.include_ext), r),
    {
        let mut progress = NoProgress;
        self.run_with(&mut progress)
    }

    /// Scans the roots, reporting each hashed file to `progress`: walks
    /// every root in order, hashes each file passing the extension filter,
    /// groups paths by digest, and discards single-member groups. The first
    /// failing entry aborts the scan with its error and no mapping.
    #[verifier::loop_isolation(false)]
    pub fn run_with<P: ProgressSink>(&self, progress: &mut P) -> (r: Result<
        DigestGroups,
        ScanError,
    >)
        ensures
            run_post(self.base_path@, filt_view(self.include_ext), r),
    {
        let ghost fv = filt_view(self.include_ext);
        let ghost pg = |g: GroupView| g.paths.len() > 1;
        let mut map = DigestGroups::new();
        let n = self.base_path.len();
        let mut i: usize = 0;
        while i < n
            invariant
                i <= n,
                first_err_seq(self.base_path@.take(i as int), fv) is None,
                map@ == build(
                    Seq::empty(),
                    hashed_of(included(files_of_seq(self.base_path@.take(i as int)), fv)),
                ),
            decreases n - i,
        {
            let ghost pre = self.base_path@.take(i as int);
            let ghost fi = files_of(self.base_path@[i as int]);
            let r = scan_entry(&mut map, &self.base_path[i], &self.include_ext, progress);
            proof {
                assert(self.base_path@.take(i + 1int).drop_last() =~= pre);
                assert(self.base_path@.take(i + 1int).last() == self.base_path@[i as int]);
            }
            match r {
                Err(er) => {
                    proof {
                        assert(first_err_seq(self.base_path@.take(i + 1int), fv) == Some(er@));
                        lemma_first_err_extend(self.base_path@, fv, i + 1int);
                        assert(self.base_path@.take(n as int) =~= self.base_path@);
                    }
                    return Err(er);
                },
                Ok(_) => {
                    proof {
                        assert(files_of_seq(self.base_path@.take(i + 1int)) == files_of_seq(pre)
                            + fi);
                        lemma_included_append(files_of_seq(pre), fi, fv);
                        lemma_hashed_append(included(files_of_seq(pre), fv), included(fi, fv));
                        lemma_build_append(
                            Seq::empty(),
                            hashed_of(included(files_of_seq(pre), fv)),
                            hashed_of(included(fi, fv)),
                        );
                    }
                },
            }
            i = i + 1;
        }
        proof {
            assert(self.base_path@.take(n as int) =~= self.base_path@);
        }
        let ghost full = map@;
        let mut out = DigestGroups::new();
        let mut j: usize = 0;
        while j < map.groups.len()
            invariant
                j <= map.groups@.len(),
                map@ == full,
                out@ == full.take(j as int).filter(pg),
            decreases map.groups@.len() - j,
        {
            proof {
                reveal_with_fuel(Seq::<_>::filter, 2);
                assert(full.take(j + 1int).drop_last() =~= full.take(j as int));
                assert(full.take(j + 1int).last() == full[j as int]);
            }
            if map.groups[j].1.len() > 1 {
                let digest = map.groups[j].0.clone();
                let paths = map.groups[j].1.clone();
                proof {
                    assert(paths.deep_view() =~= map.groups@[j as int].1.deep_view());
                    assert(pg(full[j as int]));
                }
                out.groups.push((digest, paths));
                proof {
                    assert(out@ =~= full.take(j + 1int).filter(pg));
                }
            } else {
                proof {
                    assert(!pg(full[j as int]));
                    assert(out@ =~= full.take(j + 1int).filter(pg));
                }
            }
            j = j + 1;
        }
        proof {
            assert(full.take(map.groups@.len() as int) =~= full);
            assert(out@ == prune(full));
        }
        Ok(out)
    }
}

/// The paths of the digest/path pairs whose digest is `d`, in order.
pub open spec fn paths_for(hs: Seq<HashedFile>, d: Seq<char>) -> Seq<Seq<char>> {
    hs.filter(|h: HashedFile| h.digest == d).map_values(|h: HashedFile| h.path)
}

/// Whether some group of `gs` is keyed by `d`.
pub open spec fn has_digest(gs: Seq<GroupView>, d: Seq<char>) -> bool {
    exists|j: int| 0 <= j < gs.len() && gs[j].digest == d
}

/// No two groups share a digest.
pub open spec fn distinct_digests(gs: Seq<GroupView>) -> bool {
    forall|j1: int, j2: int| 0 <= j1 < j2 < gs.len() ==> gs[j1].digest != gs[j2].digest
}

/// `gs` is exactly the grouping of the digest/path pairs `hs`: digests are
/// distinct, each group holds precisely the paths of its digest in order,
/// and every digest that occurs has its group.
pub open spec fn groups_of(gs: Seq<GroupView>, hs: Seq<HashedFile>) -> bool {
    &&& distinct_digests(gs)
    &&& forall|j: int|
        0 <= j < gs.len() ==> #[trigger] gs[j].paths == paths_for(hs, gs[j].digest)
    &&& forall|k: int| 0 <= k < hs.len() ==> has_digest(gs, #[trigger] hs[k].digest)
}

/// Filtering a pushed sequence filters the prefix and tests the new last.
pub proof fn lemma_filter_push<A>(s: Seq<A>, pred: spec_fn(A) -> bool, x: A)
    ensures
        s.push(x).filter(pred) == if pred(x) {
            s.filter(pred).push(x)
        } else {
            s.filter(pred)
        },
{
    reveal(Seq::filter);
    assert(s.push(x).drop_last() =~= s);
    assert(s.push(x).last() == x);
}

/// How one more digest/path pair extends the paths of a digest.
pub proof fn lemma_paths_for_push(hs: Seq<HashedFile>, h: HashedFile, d: Seq<char>)
    ensures
        paths_for(hs.push(h), d) == if h.digest == d {
            paths_for(hs, d).push(h.path)
        } else {
            paths_for(hs, d)
        },
{
    let pred = |x: HashedFile| x.digest == d;
    let pf = |x: HashedFile| x.path;
    lemma_filter_push(hs, pred, h);
    if h.digest == d {
        assert(hs.filter(pred).push(h).map_values(pf) =~= hs.filter(pred).map_values(pf).push(
            h.path,
        ));
    }
}

/// Inserting a pair into a grouping of `hs` gives a grouping of `hs` with
/// the pair appended.
pub proof fn lemma_groups_insert(gs: Seq<GroupView>, hs: Seq<HashedFile>, h: HashedFile)
    requires
        groups_of(gs, hs),
    ensures
        groups_of(insert_g(gs, h.digest, h.path), hs.push(h)),
{
    let d = h.digest;
    let hs2 = hs.push(h);
    assert forall|dd: Seq<char>| true implies paths_for(hs2, dd) == if dd == d {
        paths_for(hs, dd).push(h.path)
    } else {
        paths_for(hs, dd)
    } by {
        lemma_paths_for_push(hs, h, dd);
    }
    if has_digest(gs, d) {
        let i = choose|i: int| 0 <= i < gs.len() && gs[i].digest == d;
        assert(forall|j: int| 0 <= j < gs.len() && j != i ==> gs[j].digest != d);
        lemma_insert_found(gs, d, h.path, i);
        let gs2 = gs.update(i, GroupView { digest: d, paths: gs[i].paths.push(h.path) });
        assert(insert_g(gs, d, h.path) == gs2);
        assert forall|k: int| 0 <= k < hs2.len() implies has_digest(gs2, #[trigger] hs2[k].digest)
        by {
            if k < hs.len() {
                let j = choose|j: int| 0 <= j < gs.len() && gs[j].digest == hs[k].digest;
                assert(gs2[j].digest == hs[k].digest);
            } else {
                assert(gs2[i].digest == d);
            }
        }
    } else {
        assert(forall|j: int| 0 <= j < gs.len() ==> gs[j].digest != d);
        lemma_insert_absent(gs, d, h.path);
        let gs2 = gs.push(GroupView { digest: d, paths: seq![h.path] });
        assert(insert_g(gs, d, h.path) == gs2);
        let pred = |x: HashedFile| x.digest == d;
        assert forall|k: int| 0 <= k < hs.len() implies !pred(hs[k]) by {
            if pred(hs[k]) {
                assert(has_digest(gs, hs[k].digest));
            }
        }
        hs.lemma_all_neg_filter_empty(pred);
        assert(paths_for(hs, d) =~= Seq::<Seq<char>>::empty());
        assert(paths_for(hs2, d) =~= seq![h.path]);
        assert(gs2[gs.len() as int].paths == paths_for(hs2, d));
        assert forall|k: int| 0 <= k < hs2.len() implies has_digest(gs2, #[trigger] hs2[k].digest)
        by {
            if k < hs.len() {
                let j = choose|j: int| 0 <= j < gs.len() && gs[j].digest == hs[k].digest;
                assert(gs2[j].digest == hs[k].digest);
            } else {
                assert(gs2[gs.len() as int].digest == d);
            }
        }
    }
}

/// Grouping more pairs onto a grouping of `hs` groups the concatenation.
pub proof fn lemma_groups_build(gs: Seq<GroupView>, hs: Seq<HashedFile>, more: Seq<HashedFile>)
    requires
        groups_of(gs, hs),
    ensures
        groups_of(build(gs, more), hs + more),
    decreases more.len(),
{
    if more.len() == 0 {
        assert(hs + more =~= hs);
    } else {
        lemma_groups_insert(gs, hs, more[0]);
        lemma_groups_build(
            insert_g(gs, more[0].digest, more[0].path),
            hs.push(more[0]),
            more.drop_first(),
        );
        assert(hs.push(more[0]) + more.drop_first() =~= hs + more);
    }
}

/// The unpruned grouping of any pair sequence is exactly its grouping.
pub proof fn lemma_groups_of_build(hs: Seq<HashedFile>)
    ensures
        groups_of(build(Seq::empty(), hs), hs),
{
    assert(groups_of(Seq::<GroupView>::empty(), Seq::<HashedFile>::empty()));
    lemma_groups_build(Seq::empty(), Seq::empty(), hs);
    assert(Seq::<HashedFile>::empty() + hs =~= hs);
}

/// Filtering groups with distinct digests keeps them distinct, and every
/// kept group stands somewhere in the unfiltered sequence.
pub proof fn lemma_filter_groups(gs: Seq<GroupView>, pred: spec_fn(GroupView) -> bool)
    requires
        distinct_digests(gs),
    ensures
        distinct_digests(gs.filter(pred)),
        forall|j: int| 0 <= j < gs.filter(pred).len() ==> gs.contains(#[trigger] gs.filter(pred)[j]),
    decreases gs.len(),
{
    reveal(Seq::filter);
    broadcast use Seq::lemma_filter_contains_rev;

    if gs.len() > 0 {
        let rest = gs.drop_last();
        assert(distinct_digests(rest));
        lemma_filter_groups(rest, pred);
        let fr = rest.filter(pred);
        assert forall|j: int| 0 <= j < gs.filter(pred).len() implies gs.contains(
            #[trigger] gs.filter(pred)[j],
        ) by {
            if j < fr.len() {
                assert(rest.contains(fr[j]));
                let i = choose|i: int| 0 <= i < rest.len() && rest[i] == fr[j];
                assert(gs[i] == fr[j]);
            } else {
                assert(gs[gs.len() - 1] == gs.last());
            }
        }
        if pred(gs.last()) {
            assert forall|j1: int, j2: int|
                0 <= j1 < j2 < gs.filter(pred).len() implies gs.filter(pred)[j1].digest
                != gs.filter(pred)[j2].digest by {
                if j2 < fr.len() {
                } else {
                    assert(gs.filter(pred)[j2] == gs.last());
                    assert(rest.contains(fr[j1]));
                    let i = choose|i: int| 0 <= i < rest.len() && rest[i] == fr[j1];
                    assert(gs[i].digest != gs.last().digest);
                }
            }
        }
    }
}

/// Two indices that both satisfy the predicate witness at least two kept
/// elements.
pub proof fn lemma_filter_two<A>(s: Seq<A>, pred: spec_fn(A) -> bool, k1: int, k2: int)
    requires
        0 <= k1 < k2 < s.len(),
        pred(s[k1]),
        pred(s[k2]),
    ensures
        s.filter(pred).len() >= 2,
    decreases s.len(),
{
    reveal(Seq::filter);
    if k2 == s.len() - 1 {
        s.drop_last().lemma_filter_contains(pred, k1);
        let fr = s.drop_last().filter(pred);
        assert(fr.contains(s[k1]));
        assert(fr.len() >= 1);
    } else {
        lemma_filter_two(s.drop_last(), pred, k1, k2);
    }
}

/// The digest/path pairs a scan derives from its roots and filter.
pub open spec fn scan_hashed(roots: Seq<Entry>, filt: Option<Seq<Seq<char>>>) -> Seq<HashedFile> {
    hashed_of(included(files_of_seq(roots), filt))
}

/// The scan result is exactly the duplicated digests: its groups carry
/// distinct digests; each group holds precisely the paths of the files
/// that hashed to its digest, in traversal order, and has two or more of
/// them; and a digest is present exactly when two or more included files
/// hashed to it. With K digests occurring two or more times, the result
/// thus has exactly K groups, and single-member groups are absent.
pub proof fn lemma_scan_result_groups(roots: Seq<Entry>, filt: Option<Seq<Seq<char>>>)
    ensures
        distinct_digests(scan_result(roots, filt)),
        forall|j: int|
            0 <= j < scan_result(roots, filt).len() ==> (#[trigger] scan_result(
                roots,
                filt,
            )[j]).paths == paths_for(scan_hashed(roots, filt), scan_result(roots, filt)[j].digest)
                && scan_result(roots, filt)[j].paths.len() > 1,
        forall|d: Seq<char>|
            #[trigger] has_digest(scan_result(roots, filt), d) <==> paths_for(
                scan_hashed(roots, filt),
                d,
            ).len() > 1,
{
    broadcast use Seq::lemma_filter_contains_rev;
    broadcast use Seq::lemma_filter_pred;

    let hs = scan_hashed(roots, filt);
    let full = build(Seq::empty(), hs);
    let g = scan_result(roots, filt);
    let pg = |gv: GroupView| gv.paths.len() > 1;
    lemma_groups_of_build(hs);
    lemma_filter_groups(full, pg);
    assert(g == full.filter(pg));
    assert forall|j: int| 0 <= j < g.len() implies (#[trigger] g[j]).paths == paths_for(
        hs,
        g[j].digest,
    ) && g[j].paths.len() > 1 by {
        assert(full.contains(g[j]));
        let i = choose|i: int| 0 <= i < full.len() && full[i] == g[j];
        assert(full[i].paths == paths_for(hs, full[i].digest));
        assert(pg(g[j]));
    }
    assert forall|d: Seq<char>| #[trigger] has_digest(g, d) implies paths_for(hs, d).len() > 1 by {
        let j = choose|j: int| 0 <= j < g.len() && g[j].digest == d;
        assert(g[j].paths == paths_for(hs, d) && g[j].paths.len() > 1);
    }
    assert forall|d: Seq<char>| paths_for(hs, d).len() > 1 implies #[trigger] has_digest(g, d) by {
        let pred = |h: HashedFile| h.digest == d;
        let fh = hs.filter(pred);
        assert(fh.len() > 1);
        assert(pred(fh[0]));
        assert(fh.contains(fh[0]));
        assert(hs.contains(fh[0]));
        let k = choose|k: int| 0 <= k < hs.len() && hs[k] == fh[0];
        assert(has_digest(full, hs[k].digest));
        let i = choose|i: int| 0 <= i < full.len() && full[i].digest == d;
        assert(full[i].paths == paths_for(hs, d));
        assert(pg(full[i]));
        full.lemma_filter_contains(pg, i);
        assert(g.contains(full[i]));
        let j = choose|j: int| 0 <= j < g.len() && g[j] == full[i];
        assert(g[j].digest == d);
    }
}

/// Whether `p` is the path of some file under the roots that passes the
/// extension filter.
pub open spec fn from_included_file(
    roots: Seq<Entry>,
    filt: Option<Seq<Seq<char>>>,
    p: Seq<char>,
) -> bool {
    exists|f: FileMeta| files_of_seq(roots).contains(f) && f.path == p && passes(f, filt)
}

/// No path reaches the result without an included file behind it: every
/// path of every output group is the path of a file under the roots that
/// passes the extension filter. With a filter present, no file whose
/// extension fails it can therefore appear in any group.
pub proof fn lemma_extension_filter(roots: Seq<Entry>, filt: Option<Seq<Seq<char>>>)
    ensures
        forall|j: int, i: int|
            0 <= j < scan_result(roots, filt).len() && 0 <= i < scan_result(
                roots,
                filt,
            )[j].paths.len() ==> #[trigger] from_included_file(
                roots,
                filt,
                scan_result(roots, filt)[j].paths[i],
            ),
{
    broadcast use Seq::lemma_filter_contains_rev;
    broadcast use Seq::lemma_filter_pred;

    let files = files_of_seq(roots);
    let inc = included(files, filt);
    let hs = scan_hashed(roots, filt);
    let g = scan_result(roots, filt);
    lemma_scan_result_groups(roots, filt);
    assert forall|j: int, i: int|
        0 <= j < g.len() && 0 <= i < g[j].paths.len() implies #[trigger] from_included_file(
        roots,
        filt,
        g[j].paths[i],
    ) by {
        let d = g[j].digest;
        assert(g[j].paths == paths_for(hs, d));
        let pred = |h: HashedFile| h.digest == d;
        let fh = hs.filter(pred);
        assert(g[j].paths[i] == fh.map_values(|h: HashedFile| h.path)[i]);
        assert(fh.contains(fh[i]));
        assert(hs.contains(fh[i]));
        let k = choose|k: int| 0 <= k < hs.len() && hs[k] == fh[i];
        assert(hs[k].path == inc[k].path);
        assert(passes(inc[k], filt));
        assert(inc.contains(inc[k]));
        assert(files.contains(inc[k]));
        assert(inc[k].path == g[j].paths[i] && passes(inc[k], filt));
        assert(from_included_file(roots, filt, g[j].paths[i]));
    }
}

/// Two distinct included files with the same content land in the same
/// output group: their common digest is a key of the result and that group
/// holds both paths.
pub proof fn lemma_equal_content_same_group(
    roots: Seq<Entry>,
    filt: Option<Seq<Seq<char>>>,
    k1: int,
    k2: int,
)
    requires
        0 <= k1 < k2 < included(files_of_seq(roots), filt).len(),
        included(files_of_seq(roots), filt)[k1].content == included(
            files_of_seq(roots),
            filt,
        )[k2].content,
    ensures
        exists|j: int|
            0 <= j < scan_result(roots, filt).len() && (#[trigger] scan_result(
                roots,
                filt,
            )[j]).digest == digest_of(included(files_of_seq(roots), filt)[k1].content->0)
                && scan_result(roots, filt)[j].paths.contains(
                included(files_of_seq(roots), filt)[k1].path,
            ) && scan_result(roots, filt)[j].paths.contains(
                included(files_of_seq(roots), filt)[k2].path,
            ),
{
    let inc = included(files_of_seq(roots), filt);
    let hs = scan_hashed(roots, filt);
    let g = scan_result(roots, filt);
    let d = digest_of(inc[k1].content->0);
    let pred = |h: HashedFile| h.digest == d;
    assert(hs[k1].digest == d && hs[k2].digest == d);
    lemma_filter_two(hs, pred, k1, k2);
    lemma_scan_result_groups(roots, filt);
    assert(paths_for(hs, d).len() > 1);
    assert(has_digest(g, d));
    let j = choose|j: int| 0 <= j < g.len() && g[j].digest == d;
    assert(g[j].paths == paths_for(hs, d));
    let fh = hs.filter(pred);
    hs.lemma_filter_contains(pred, k1);
    hs.lemma_filter_contains(pred, k2);
    let i1 = choose|i: int| 0 <= i < fh.len() && fh[i] == hs[k1];
    let i2 = choose|i: int| 0 <= i < fh.len() && fh[i] == hs[k2];
    assert(g[j].paths[i1] == hs[k1].path);
    assert(g[j].paths[i2] == hs[k2].path);
    assert(g[j].paths.contains(inc[k1].path));
    assert(g[j].paths.contains(inc[k2].path));
}

/// How removing one element changes the multiset of a filtered sequence.
pub proof fn lemma_filter_remove<A>(s: Seq<A>, pred: spec_fn(A) -> bool, i: int)
    requires
        0 <= i < s.len(),
    ensures
        s.filter(pred).to_multiset() == if pred(s[i]) {
            s.remove(i).filter(pred).to_multiset().insert(s[i])
        } else {
            s.remove(i).filter(pred).to_multiset()
        },
    decreases s.len(),
{
    reveal(Seq::filter);
    broadcast use vstd::seq_lib::group_to_multiset_ensures;

    if i == s.len() - 1 {
        assert(s.remove(i) =~= s.drop_last());
        if pred(s[i]) {
            assert(s.filter(pred) == s.drop_last().filter(pred).push(s[i]));
            assert(s.filter(pred).to_multiset() =~= s.drop_last().filter(pred).to_multiset().insert(
                s[i],
            ));
        }
    } else {
        let rest = s.drop_last();
        lemma_filter_remove(rest, pred, i);
        assert(s.remove(i).drop_last() =~= rest.remove(i));
        assert(s.remove(i).last() == s.last());
        if pred(s.last()) {
            assert(s.filter(pred) == rest.filter(pred).push(s.last()));
            assert(s.remove(i).filter(pred) == rest.remove(i).filter(pred).push(s.last()));
            assert(s.filter(pred).to_multiset() =~= rest.filter(pred).to_multiset().insert(
                s.last(),
            ));
            assert(s.remove(i).filter(pred).to_multiset() =~= rest.remove(
                i,
            ).filter(pred).to_multiset().insert(s.last()));
            if pred(s[i]) {
                assert(s.filter(pred).to_multiset() =~= s.remove(
                    i,
                ).filter(pred).to_multiset().insert(s[i]));
            } else {
                assert(s.filter(pred).to_multiset() =~= s.remove(i).filter(pred).to_multiset());
            }
        } else {
            assert(s.filter(pred) == rest.filter(pred));
            assert(s.remove(i).filter(pred) == rest.remove(i).filter(pred));
        }
    }
}

/// Sequences with equal multisets keep equal multisets after filtering.
pub proof fn lemma_filter_multiset_eq<A>(s1: Seq<A>, s2: Seq<A>, pred: spec_fn(A) -> bool)
    requires
        s1.to_multiset() == s2.to_multiset(),
    ensures
        s1.filter(pred).to_multiset() == s2.filter(pred).to_multiset(),
    decreases s1.len(),
{
    reveal(Seq::filter);
    broadcast use vstd::seq_lib::group_to_multiset_ensures;

    if s1.len() == 0 {
        assert(s1.to_multiset().len() == s1.len());
        assert(s2.to_multiset().len() == s2.len());
        assert(s2.len() == 0);
    } else {
        let x = s1.last();
        assert(s1.contains(x));
        assert(s1.to_multiset().count(x) > 0);
        assert(s2.contains(x));
        let i = choose|i: int| 0 <= i < s2.len() && s2[i] == x;
        assert(s1 =~= s1.drop_last().push(x));
        assert(s1.to_multiset() =~= s1.drop_last().to_multiset().insert(x));
        assert(s2.remove(i).to_multiset() =~= s2.to_multiset().remove(x));
        assert(s1.drop_last().to_multiset() =~= s2.remove(i).to_multiset());
        lemma_filter_multiset_eq(s1.drop_last(), s2.remove(i), pred);
        lemma_filter_remove(s2, pred, i);
        if pred(x) {
            assert(s1.filter(pred) == s1.drop_last().filter(pred).push(x));
            assert(s1.filter(pred).to_multiset() =~= s1.drop_last().filter(pred).to_multiset().insert(
                x,
            ));
            assert(s1.filter(pred).to_multiset() =~= s2.filter(pred).to_multiset());
        } else {
            assert(s1.filter(pred) == s1.drop_last().filter(pred));
            assert(s1.filter(pred).to_multiset() =~= s2.filter(pred).to_multiset());
        }
    }
}

/// Sequences with equal multisets keep equal multisets after mapping.
pub proof fn lemma_map_multiset_eq<A, B>(s1: Seq<A>, s2: Seq<A>, f: spec_fn(A) -> B)
    requires
        s1.to_multiset() == s2.to_multiset(),
    ensures
        s1.map_values(f).to_multiset() == s2.map_values(f).to_multiset(),
    decreases s1.len(),
{
    broadcast use vstd::seq_lib::group_to_multiset_ensures;

    if s1.len() == 0 {
        assert(s1.to_multiset().len() == s1.len());
        assert(s2.to_multiset().len() == s2.len());
        assert(s2.len() == 0);
        assert(s1.map_values(f) =~= s2.map_values(f));
    } else {
        let x = s1.last();
        assert(s1.contains(x));
        assert(s1.to_multiset().count(x) > 0);
        assert(s2.contains(x));
        let i = choose|i: int| 0 <= i < s2.len() && s2[i] == x;
        assert(s1 =~= s1.drop_last().push(x));
        assert(s1.to_multiset() =~= s1.drop_last().to_multiset().insert(x));
        assert(s2.remove(i).to_multiset() =~= s2.to_multiset().remove(x));
        assert(s1.drop_last().to_multiset() =~= s2.remove(i).to_multiset());
        lemma_map_multiset_eq(s1.drop_last(), s2.remove(i), f);
        assert(s2.remove(i).map_values(f) =~= s2.map_values(f).remove(i));
        assert(s2.map_values(f).remove(i).to_multiset() =~= s2.map_values(f).to_multiset().remove(
            f(x),
        ));
        assert(s1.map_values(f) =~= s1.drop_last().map_values(f).push(f(x)));
        assert(s1.map_values(f).to_multiset() =~= s1.drop_last().map_values(
            f,
        ).to_multiset().insert(f(x)));
        assert(s2.map_values(f).to_multiset().count(f(x)) > 0);
        assert(s1.map_values(f).to_multiset() =~= s2.map_values(f).to_multiset());
    }
}

/// Scanning is insensitive to the order in which the files are met: two
/// trees holding the same files — as directory listings reordered between
/// two runs do — yield results with the same digests, and for each digest
/// the same paths, path lists possibly reordered.
pub proof fn lemma_scan_reorder(roots1: Seq<Entry>, roots2: Seq<Entry>, filt: Option<Seq<Seq<char>>>)
    requires
        files_of_seq(roots1).to_multiset() == files_of_seq(roots2).to_multiset(),
    ensures
        forall|d: Seq<char>|
            #[trigger] paths_for(scan_hashed(roots1, filt), d).to_multiset() == paths_for(
                scan_hashed(roots2, filt),
                d,
            ).to_multiset(),
        forall|d: Seq<char>|
            #[trigger] has_digest(scan_result(roots1, filt), d) <==> has_digest(
                scan_result(roots2, filt),
                d,
            ),
{
    broadcast use vstd::seq_lib::group_to_multiset_ensures;

    let files1 = files_of_seq(roots1);
    let files2 = files_of_seq(roots2);
    let inc1 = included(files1, filt);
    let inc2 = included(files2, filt);
    let hs1 = scan_hashed(roots1, filt);
    let hs2 = scan_hashed(roots2, filt);
    lemma_filter_multiset_eq(files1, files2, |f: FileMeta| passes(f, filt));
    lemma_map_multiset_eq(
        inc1,
        inc2,
        |f: FileMeta| HashedFile { digest: digest_of(f.content->0), path: f.path },
    );
    assert(hs1.to_multiset() == hs2.to_multiset());
    assert forall|d: Seq<char>| true implies #[trigger] paths_for(hs1, d).to_multiset()
        == paths_for(hs2, d).to_multiset() by {
        lemma_filter_multiset_eq(hs1, hs2, |h: HashedFile| h.digest == d);
        lemma_map_multiset_eq(
            hs1.filter(|h: HashedFile| h.digest == d),
            hs2.filter(|h: HashedFile| h.digest == d),
            |h: HashedFile| h.path,
        );
    }
    lemma_scan_result_groups(roots1, filt);
    lemma_scan_result_groups(roots2, filt);
    assert forall|d: Seq<char>| true implies (#[trigger] has_digest(scan_result(roots1, filt), d)
        <==> has_digest(scan_result(roots2, filt), d)) by {
        assert(paths_for(hs1, d).to_multiset() == paths_for(hs2, d).to_multiset());
        assert(paths_for(hs1, d).len() == paths_for(hs1, d).to_multiset().len());
        assert(paths_for(hs2, d).len() == paths_for(hs2, d).to_multiset().len());
    }
}

} // verus!
