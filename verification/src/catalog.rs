//! The catalog of sequence files: built once, ordered by path, read-only.

use vstd::prelude::*;
use crate::fasta::{fasta_record_lengths, record_lengths};
use crate::path_order::{
    compare_paths, lemma_path_before_irreflexive, lemma_path_before_total,
    lemma_path_before_transitive, path_before, PathOrder,
};
use vstd::slice::slice_to_vec;
use vstd::utf8::{encode_utf8, encode_utf8_decode_utf8};

verus! {

/// One sequence file: where it was found and the length of each of its
/// records, in file order. Nothing changes it once it exists. The path is
/// held as the bytes of its name, so that no two paths fall together.
#[derive(Debug)]
pub struct SequenceFile {
    path: Vec<u8>,
    raw_lengths: Vec<usize>,
}

/// What a [`SequenceFile`] stands for.
pub struct SequenceFileView {
    pub path: Seq<u8>,
    pub raw_lengths: Seq<usize>,
}

impl View for SequenceFile {
    type V = SequenceFileView;

    closed spec fn view(&self) -> SequenceFileView {
        SequenceFileView { path: self.path@, raw_lengths: self.raw_lengths@ }
    }
}

impl SequenceFile {
    /// A file found at `path` whose records have the lengths `raw_lengths`.
    pub fn new(path: Vec<u8>, raw_lengths: Vec<usize>) -> (file: SequenceFile)
        ensures
            file@.path == path@,
            file@.raw_lengths == raw_lengths@,
    {
        SequenceFile { path, raw_lengths }
    }

    /// Where the file was found.
    pub fn path(&self) -> (path: &[u8])
        ensures
            path@ == self@.path,
    {
        self.path.as_slice()
    }

    /// The length of every record, in file order.
    pub fn raw_lengths(&self) -> (lengths: &Vec<usize>)
        ensures
            lengths@ == self@.raw_lengths,
    {
        &self.raw_lengths
    }
}

/// The files are listed in strictly ascending path order, so no path
/// occurs twice.
pub open spec fn ascending(listed: Seq<SequenceFileView>) -> bool {
    forall|i: int, j: int|
        0 <= i < j < listed.len() ==> path_before(#[trigger] listed[i].path, #[trigger] listed[j].path)
}

/// Some file of `files` was found at `path`.
pub open spec fn has_path(files: Seq<SequenceFileView>, path: Seq<u8>) -> bool {
    exists|i: int| 0 <= i < files.len() && #[trigger] files[i].path == path
}

/// No file after position `i` shares the path of `files[i]`.
pub open spec fn is_last_with_path(files: Seq<SequenceFileView>, i: int) -> bool {
    &&& 0 <= i < files.len()
    &&& forall|k: int| i < k < files.len() ==> #[trigger] files[k].path != files[i].path
}

/// `listed` is the catalog of `files`: ascending by path, with an entry for
/// every path of `files`, each entry being the last file found at its path.
pub open spec fn is_catalog_of(listed: Seq<SequenceFileView>, files: Seq<SequenceFileView>) -> bool {
    &&& ascending(listed)
    &&& forall|i: int| 0 <= i < files.len() ==> has_path(listed, #[trigger] files[i].path)
    &&& forall|j: int|
        0 <= j < listed.len() ==> exists|i: int|
            is_last_with_path(files, i) && files[i] == #[trigger] listed[j]
}

/// The views of a run of files.
pub open spec fn file_views(files: Seq<SequenceFile>) -> Seq<SequenceFileView> {
    files.map_values(|f: SequenceFile| f@)
}

/// The path-sorted collection of sequence files.
#[derive(Debug)]
pub struct Catalog {
    files: Vec<SequenceFile>,
}

impl View for Catalog {
    type V = Seq<SequenceFileView>;

    closed spec fn view(&self) -> Seq<SequenceFileView> {
        file_views(self.files@)
    }
}

/// Puts `file` at its place in `listed`, unless its path is listed already.
fn place(listed: &mut Vec<SequenceFile>, file: SequenceFile)
    requires
        ascending(file_views(old(listed)@)),
    ensures
        ascending(file_views(final(listed)@)),
        has_path(file_views(old(listed)@), file@.path) ==> file_views(final(listed)@)
            == file_views(old(listed)@),
        !has_path(file_views(old(listed)@), file@.path) ==> exists|p: int|
            0 <= p <= old(listed).len() && file_views(final(listed)@) == #[trigger] file_views(
                old(listed)@,
            ).insert(p, file@),
{
    let ghost before = file_views(listed@);
    let mut p: usize = 0;
    let mut found = false;
    while p < listed.len()
        invariant_except_break
            !found,
        invariant
            p <= listed.len(),
            file_views(listed@) == before,
            forall|j: int| 0 <= j < p ==> path_before(#[trigger] before[j].path, file@.path),
        ensures
            found ==> p < listed.len() && before[p as int].path == file@.path,
            !found && p < listed.len() ==> path_before(file@.path, before[p as int].path),
        decreases listed.len() - p,
    {
        assert(before[p as int] == listed@[p as int]@);
        match compare_paths(listed[p].path(), file.path()) {
            PathOrder::Before => {
                p += 1;
            },
            PathOrder::Same => {
                found = true;
                break;
            },
            PathOrder::After => {
                proof {
                    lemma_path_before_total(before[p as int].path, file@.path);
                }
                break;
            },
        }
    }
    if found {
        return;
    }
    proof {
        assert forall|j: int| 0 <= j < before.len() implies #[trigger] before[j].path
            != file@.path by {
            lemma_path_before_irreflexive(file@.path);
            if j > p {
                lemma_path_before_transitive(file@.path, before[p as int].path, before[j].path);
            }
        }
        assert forall|i: int, j: int| 0 <= i < j < before.len() + 1 implies path_before(
            #[trigger] before.insert(p as int, file@)[i].path,
            #[trigger] before.insert(p as int, file@)[j].path,
        ) by {
            if i == p && j > p + 1 {
                lemma_path_before_transitive(file@.path, before[p as int].path, before[j - 1].path);
            }
        }
    }
    listed.insert(p, file);
    proof {
        assert(file_views(listed@) =~= before.insert(p as int, file@));
    }
}

impl Catalog {
    #[verifier::type_invariant]
    pub(crate) open spec fn listed_in_order(&self) -> bool {
        ascending(self@)
    }

    /// The catalog without any file.
    pub fn empty() -> (catalog: Catalog)
        ensures
            catalog@.len() == 0,
    {
        Catalog { files: Vec::new() }
    }

    /// Lists `files` by ascending path, component by component. Where
    /// several files were found at the same path, the last of them is the
    /// one listed; where no two share a path, all of them are listed.
    pub fn from_files(files: Vec<SequenceFile>) -> (catalog: Catalog)
        ensures
            is_catalog_of(catalog@, file_views(files@)),
            distinct_paths(file_views(files@)) ==> catalog@.len() == files.len()
                && catalog@.to_multiset() == file_views(files@).to_multiset(),
    {
        let ghost all = file_views(files@);
        let mut files = files;
        let mut listed: Vec<SequenceFile> = Vec::new();
        while files.len() > 0
            invariant
                files.len() <= all.len(),
                file_views(files@) == all.take(files.len() as int),
                is_catalog_of(file_views(listed@), all.skip(files.len() as int)),
            decreases files.len(),
        {
            let ghost k = files.len() - 1;
            let ghost done = all.skip(files.len() as int);
            let ghost held = file_views(listed@);
            let file = files.pop().unwrap();
            proof {
                assert(file@ == all[k]) by {
                    assert(all.take(k + 1)[k] == all[k]);
                }
                assert(file_views(files@) =~= all.take(k));
                assert(all.skip(k).drop_first() =~= done);
                lemma_catalog_step(held, done, all.skip(k));
            }
            place(&mut listed, file);
            proof {
                lemma_catalog_grows(held, file_views(listed@), done, all.skip(k));
            }
        }
        proof {
            assert(all.skip(0) =~= all);
            if distinct_paths(all) {
                lemma_catalog_of_distinct_paths_is_permutation(file_views(listed@), all);
            }
        }
        Catalog { files: listed }
    }

    /// How many files are listed.
    pub fn len(&self) -> (count: usize)
        ensures
            count == self@.len(),
    {
        self.files.len()
    }

    /// The listing itself. Whatever way the catalog was made, its paths
    /// ascend strictly, so each is listed once.
    pub fn files(&self) -> (files: &Vec<SequenceFile>)
        ensures
            file_views(files@) == self@,
            ascending(self@),
    {
        proof {
            use_type_invariant(self);
        }
        &self.files
    }

    /// The file at position `index` of the listing.
    pub fn get(&self, index: usize) -> (file: Option<&SequenceFile>)
        ensures
            match file {
                Some(f) => index < self@.len() && f@ == self@[index as int],
                None => index >= self@.len(),
            },
    {
        if index < self.files.len() {
            Some(&self.files[index])
        } else {
            None
        }
    }
}

/// A file as it was discovered: its path, and its bytes unless it could not
/// be read.
#[derive(Debug)]
pub struct Source {
    pub path: Vec<u8>,
    pub content: Option<Vec<u8>>,
}

/// What a [`Source`] stands for.
pub struct SourceView {
    pub path: Seq<u8>,
    pub content: Option<Seq<u8>>,
}

impl View for Source {
    type V = SourceView;

    open spec fn view(&self) -> SourceView {
        SourceView {
            path: self.path@,
            content: match self.content {
                Some(bytes) => Some(bytes@),
                None => None,
            },
        }
    }
}

/// The views of a run of sources.
pub open spec fn source_views(sources: Seq<Source>) -> Seq<SourceView> {
    sources.map_values(|s: Source| s@)
}

/// The record lengths that a source yields: none where it could not be
/// read, none where its content is malformed.
pub open spec fn lengths_of(source: SourceView) -> Option<Seq<usize>> {
    match source.content {
        Some(bytes) => fasta_record_lengths(bytes),
        None => None,
    }
}

/// The sequence file that a loadable source becomes.
pub open spec fn loaded_file(source: SourceView) -> SequenceFileView {
    SequenceFileView { path: source.path, raw_lengths: lengths_of(source)->0 }
}

/// The sequence files that a run of loadable sources becomes.
pub open spec fn loaded_files(sources: Seq<SourceView>) -> Seq<SequenceFileView> {
    sources.map_values(|s: SourceView| loaded_file(s))
}

/// Every source of the run can be read and parsed.
pub open spec fn all_loadable(sources: Seq<SourceView>) -> bool {
    forall|i: int| 0 <= i < sources.len() ==> lengths_of(#[trigger] sources[i]) is Some
}

/// `index` is the first source of the run that cannot be loaded.
pub open spec fn is_first_failure(sources: Seq<SourceView>, index: int) -> bool {
    &&& 0 <= index < sources.len()
    &&& lengths_of(sources[index]) is None
    &&& forall|j: int| 0 <= j < index ==> lengths_of(#[trigger] sources[j]) is Some
}

/// Why a catalog could not be built. Either way the whole build is given
/// up: no catalog is made from the sources that did load.
#[derive(Debug)]
pub enum BuildError {
    /// The source at `index` could not be read.
    Io { index: usize, path: Vec<u8> },
    /// The source at `index` is not well-formed.
    Parse { index: usize, path: Vec<u8> },
}

impl BuildError {
    /// The position, among the sources, of the one that failed.
    pub open spec fn failed_index(&self) -> int {
        match self {
            BuildError::Io { index, .. } => *index as int,
            BuildError::Parse { index, .. } => *index as int,
        }
    }

    /// The path of the source that failed.
    pub open spec fn failed_path(&self) -> Seq<u8> {
        match self {
            BuildError::Io { path, .. } => path@,
            BuildError::Parse { path, .. } => path@,
        }
    }

    /// The error names the first source of the run that cannot be loaded,
    /// and says rightly whether it was unreadable or malformed.
    pub open spec fn reports(&self, sources: Seq<SourceView>) -> bool {
        &&& is_first_failure(sources, self.failed_index())
        &&& self.failed_path() == sources[self.failed_index()].path
        &&& self is Io <==> sources[self.failed_index()].content is None
    }

    /// The position, among the sources, of the one that failed.
    pub fn index(&self) -> (index: usize)
        ensures
            index == self.failed_index(),
    {
        match self {
            BuildError::Io { index, .. } => *index,
            BuildError::Parse { index, .. } => *index,
        }
    }

    /// The path of the source that failed.
    pub fn path(&self) -> (path: &[u8])
        ensures
            path@ == self.failed_path(),
    {
        match self {
            BuildError::Io { path, .. } => path.as_slice(),
            BuildError::Parse { path, .. } => path.as_slice(),
        }
    }
}

/// The file name extensions of sequence files.
pub open spec fn is_known_extension(extension: Seq<char>) -> bool {
    ||| extension == seq!['f', 'a', 's', 't', 'a']
    ||| extension == seq!['f', 'a']
    ||| extension == seq!['f', 'n', 'a']
}

/// Whether two texts are the same, character for character.
fn same_text(a: &str, b: &str) -> (same: bool)
    ensures
        same == (a@ == b@),
{
    proof {
        encode_utf8_decode_utf8(a@);
        encode_utf8_decode_utf8(b@);
        lemma_path_before_irreflexive(encode_utf8(a@));
    }
    match compare_paths(a.as_bytes(), b.as_bytes()) {
        PathOrder::Same => true,
        _ => false,
    }
}

/// Whether a file with this extension (the part of its name after the last
/// dot) is taken for a sequence file. Upper and lower case differ.
pub fn is_sequence_extension(extension: &str) -> (known: bool)
    ensures
        known == is_known_extension(extension@),
{
    proof {
        reveal_strlit("fasta");
        reveal_strlit("fa");
        reveal_strlit("fna");
        assert("fasta"@ =~= seq!['f', 'a', 's', 't', 'a']);
        assert("fa"@ =~= seq!['f', 'a']);
        assert("fna"@ =~= seq!['f', 'n', 'a']);
    }
    same_text(extension, "fasta") || same_text(extension, "fa") || same_text(extension, "fna")
}

/// What a piece of content stands for.
pub open spec fn content_view(content: Option<&[u8]>) -> Option<Seq<u8>> {
    match content {
        Some(bytes) => Some(bytes@),
        None => None,
    }
}

/// A catalog in the making. Sources are offered one at a time, so that the
/// content of one need not be held while the next is read; only the record
/// lengths are kept. The first source that cannot be loaded settles the
/// outcome, and what is offered after it is not looked at.
pub struct CatalogBuilder {
    files: Vec<SequenceFile>,
    failure: Option<BuildError>,
    offered: Ghost<Seq<SourceView>>,
}

impl View for CatalogBuilder {
    type V = Seq<SourceView>;

    /// The sources offered so far, in the order in which they came.
    closed spec fn view(&self) -> Seq<SourceView> {
        self.offered@
    }
}

impl CatalogBuilder {
    #[verifier::type_invariant]
    spec fn keeps_track(&self) -> bool {
        match self.failure {
            None => all_loadable(self.offered@) && file_views(self.files@) == loaded_files(
                self.offered@,
            ),
            Some(error) => error.reports(self.offered@),
        }
    }

    /// The builder to which nothing has been offered.
    pub fn new() -> (builder: CatalogBuilder)
        ensures
            builder@ == Seq::<SourceView>::empty(),
    {
        let files: Vec<SequenceFile> = Vec::new();
        proof {
            assert(file_views(files@) =~= loaded_files(Seq::<SourceView>::empty()));
        }
        CatalogBuilder { files, failure: None, offered: Ghost(Seq::empty()) }
    }

    /// Offers the source found at `path`, with its content unless it could
    /// not be read.
    pub fn add(self, path: Vec<u8>, content: Option<&[u8]>) -> (next: CatalogBuilder)
        ensures
            next@ == self@.push(SourceView { path: path@, content: content_view(content) }),
    {
        proof {
            use_type_invariant(&self);
        }
        let ghost before = self.offered@;
        let ghost source = SourceView { path: path@, content: content_view(content) };
        let ghost after = before.push(source);
        let CatalogBuilder { files, failure, offered } = self;
        let mut files = files;
        if failure.is_some() {
            proof {
                let at = failure->0.failed_index();
                assert(after[at] == before[at]);
                assert forall|j: int| 0 <= j < at implies lengths_of(#[trigger] after[j]) is Some by {
                    assert(after[j] == before[j]);
                }
            }
            return CatalogBuilder { files, failure, offered: Ghost(after) };
        }
        proof {
            assert(after[before.len() as int] == source);
            assert forall|j: int| 0 <= j < before.len() implies #[trigger] after[j] == before[j] by {}
            assert(file_views(files@).len() == before.len());
        }
        let index = files.len();
        let found = match content {
            Some(bytes) => record_lengths(bytes),
            None => {
                return CatalogBuilder {
                    files,
                    failure: Some(BuildError::Io { index, path }),
                    offered: Ghost(after),
                };
            },
        };
        let lengths = match found {
            Some(lengths) => lengths,
            None => {
                return CatalogBuilder {
                    files,
                    failure: Some(BuildError::Parse { index, path }),
                    offered: Ghost(after),
                };
            },
        };
        let ghost earlier = file_views(files@);
        let file = SequenceFile::new(path, lengths);
        assert(file@ == loaded_file(source));
        files.push(file);
        proof {
            assert forall|j: int| 0 <= j < after.len() implies file_views(files@)[j] == loaded_files(
                after,
            )[j] by {
                if j < before.len() {
                    assert(earlier[j] == loaded_files(before)[j]);
                    assert(file_views(files@)[j] == earlier[j]);
                }
            }
            assert(file_views(files@) =~= loaded_files(after));
        }
        CatalogBuilder { files, failure: None, offered: Ghost(after) }
    }

    /// Whether some source offered so far could not be loaded. Once that is
    /// so the outcome is settled and nothing more need be offered.
    pub fn has_failed(&self) -> (failed: bool)
        ensures
            failed == !all_loadable(self@),
    {
        proof {
            use_type_invariant(self);
        }
        self.failure.is_some()
    }

    /// The catalog of the sources offered.
    ///
    /// Succeeds exactly when every one of them could be read and is
    /// well-formed; the catalog then lists all of them, component by
    /// component in ascending path order. Otherwise the first source that
    /// failed, in the order offered, is reported and no catalog is made.
    pub fn finish(self) -> (built: Result<Catalog, BuildError>)
        ensures
            match built {
                Ok(catalog) => all_loadable(self@) && is_catalog_of(catalog@, loaded_files(self@)),
                Err(error) => error.reports(self@),
            },
    {
        proof {
            use_type_invariant(&self);
        }
        let CatalogBuilder { files, failure, offered } = self;
        match failure {
            Some(error) => Err(error),
            None => Ok(Catalog::from_files(files)),
        }
    }
}

impl Catalog {
    /// Builds the catalog of `sources`.
    ///
    /// Succeeds exactly when every source could be read and is well-formed;
    /// the catalog then lists all of them by ascending path. Otherwise the
    /// first source that fails, in the order given, ends the build.
    pub fn build(sources: &Vec<Source>) -> (built: Result<Catalog, BuildError>)
        ensures
            match built {
                Ok(catalog) => {
                    &&& all_loadable(source_views(sources@))
                    &&& is_catalog_of(catalog@, loaded_files(source_views(sources@)))
                },
                Err(error) => error.reports(source_views(sources@)),
            },
    {
        let ghost all = source_views(sources@);
        let mut builder = CatalogBuilder::new();
        let mut i: usize = 0;
        proof {
            assert(all.take(0) =~= builder@);
        }
        while i < sources.len()
            invariant
                i <= sources.len(),
                all == source_views(sources@),
                builder@ == all.take(i as int),
            decreases sources.len() - i,
        {
            let source = &sources[i];
            let path = slice_to_vec(source.path.as_slice());
            let content: Option<&[u8]> = match &source.content {
                Some(bytes) => Some(bytes.as_slice()),
                None => None,
            };
            proof {
                assert(all[i as int] == source@);
                assert(all.take(i as int).push(all[i as int]) =~= all.take(i + 1));
            }
            builder = builder.add(path, content);
            i += 1;
        }
        proof {
            assert(all.take(i as int) =~= all);
        }
        builder.finish()
    }
}

/// No two of the files were found at the same path.
pub open spec fn distinct_paths(files: Seq<SequenceFileView>) -> bool {
    forall|i: int, j: int|
        0 <= i < j < files.len() ==> (#[trigger] files[i]).path != (#[trigger] files[j]).path
}

/// Where no two files share a path the catalog loses none of them: it is
/// the same files in another order.
pub proof fn lemma_catalog_of_distinct_paths_is_permutation(
    listed: Seq<SequenceFileView>,
    files: Seq<SequenceFileView>,
)
    requires
        is_catalog_of(listed, files),
        distinct_paths(files),
    ensures
        listed.len() == files.len(),
        listed.to_multiset() == files.to_multiset(),
{
    assert(listed.no_duplicates()) by {
        assert forall|i: int, j: int| 0 <= i < listed.len() && 0 <= j < listed.len() && i != j implies listed[i]
            != listed[j] by {
            lemma_path_before_irreflexive(listed[i].path);
            if i < j {
                assert(path_before(listed[i].path, listed[j].path));
            } else {
                assert(path_before(listed[j].path, listed[i].path));
            }
        }
    }
    assert(files.no_duplicates()) by {
        assert forall|i: int, j: int| 0 <= i < files.len() && 0 <= j < files.len() && i != j implies files[i]
            != files[j] by {
            if i < j {
                assert(files[i].path != files[j].path);
            } else {
                assert(files[j].path != files[i].path);
            }
        }
    }
    assert forall|x: SequenceFileView| listed.contains(x) <==> files.contains(x) by {
        if listed.contains(x) {
            let j = choose|j: int| 0 <= j < listed.len() && listed[j] == x;
            let i = choose|i: int| is_last_with_path(files, i) && files[i] == #[trigger] listed[j];
            assert(files[i] == x);
        }
        if files.contains(x) {
            let i = choose|i: int| 0 <= i < files.len() && files[i] == x;
            assert(has_path(listed, files[i].path));
            let j = choose|j: int| 0 <= j < listed.len() && #[trigger] listed[j].path == files[i].path;
            let k = choose|k: int| is_last_with_path(files, k) && files[k] == #[trigger] listed[j];
            if k < i {
                assert(files[k].path != files[i].path);
            } else if i < k {
                assert(files[i].path != files[k].path);
            }
            assert(listed[j] == x);
        }
    }
    listed.lemma_multiset_has_no_duplicates();
    files.lemma_multiset_has_no_duplicates();
    assert forall|x: SequenceFileView| listed.to_multiset().count(x) == files.to_multiset().count(
        x,
    ) by {
        vstd::seq_lib::to_multiset_contains(listed, x);
        vstd::seq_lib::to_multiset_contains(files, x);
    }
    assert(listed.to_multiset() =~= files.to_multiset());
    vstd::seq_lib::to_multiset_len(listed);
    vstd::seq_lib::to_multiset_len(files);
}

/// Where the front file's path is listed already, the listing is also the
/// catalog of the longer run.
proof fn lemma_catalog_step(
    held: Seq<SequenceFileView>,
    done: Seq<SequenceFileView>,
    next: Seq<SequenceFileView>,
)
    requires
        next.len() > 0,
        done == next.drop_first(),
        is_catalog_of(held, done),
    ensures
        has_path(held, next[0].path) ==> is_catalog_of(held, next),
{
    if has_path(held, next[0].path) {
        assert forall|i: int| 0 <= i < next.len() implies has_path(held, #[trigger] next[i].path) by {
            if i > 0 {
                assert(next[i] == done[i - 1]);
            }
        }
        assert forall|j: int| 0 <= j < held.len() implies exists|i: int|
            is_last_with_path(next, i) && next[i] == #[trigger] held[j] by {
            let i = choose|i: int| is_last_with_path(done, i) && done[i] == held[j];
            assert forall|k: int| i + 1 < k < next.len() implies #[trigger] next[k].path != next[i
                + 1].path by {
                assert(next[k] == done[k - 1]);
            }
            assert(is_last_with_path(next, i + 1) && next[i + 1] == held[j]);
        }
    }
}

/// Placing the front file of `next` into the catalog of the rest gives the
/// catalog of `next`.
proof fn lemma_catalog_grows(
    held: Seq<SequenceFileView>,
    grown: Seq<SequenceFileView>,
    done: Seq<SequenceFileView>,
    next: Seq<SequenceFileView>,
)
    requires
        next.len() > 0,
        done == next.drop_first(),
        is_catalog_of(held, done),
        ascending(grown),
        has_path(held, next[0].path) ==> is_catalog_of(held, next) && grown == held,
        !has_path(held, next[0].path) ==> exists|p: int|
            0 <= p <= held.len() && grown == #[trigger] held.insert(p, next[0]),
    ensures
        is_catalog_of(grown, next),
{
    if !has_path(held, next[0].path) {
        let p = choose|p: int| 0 <= p <= held.len() && grown == #[trigger] held.insert(p, next[0]);
        assert(grown[p] == next[0]);
        assert forall|i: int| 0 <= i < next.len() implies has_path(grown, #[trigger] next[i].path) by {
            if i == 0 {
                assert(grown[p].path == next[0].path);
            } else {
                assert(next[i] == done[i - 1]);
                let j = choose|j: int| 0 <= j < held.len() && #[trigger] held[j].path == done[i - 1].path;
                if j < p {
                    assert(grown[j].path == next[i].path);
                } else {
                    assert(grown[j + 1].path == next[i].path);
                }
            }
        }
        assert forall|j: int| 0 <= j < grown.len() implies exists|i: int|
            is_last_with_path(next, i) && next[i] == #[trigger] grown[j] by {
            if j == p {
                assert forall|k: int| 0 < k < next.len() implies #[trigger] next[k].path
                    != next[0].path by {
                    assert(next[k] == done[k - 1]);
                    assert(has_path(held, done[k - 1].path));
                }
                assert(is_last_with_path(next, 0) && next[0] == grown[j]);
            } else {
                let h = if j < p { j } else { j - 1 };
                assert(grown[j] == held[h]);
                let i = choose|i: int| is_last_with_path(done, i) && done[i] == held[h];
                assert forall|k: int| i + 1 < k < next.len() implies #[trigger] next[k].path
                    != next[i + 1].path by {
                    assert(next[k] == done[k - 1]);
                }
                assert(is_last_with_path(next, i + 1) && next[i + 1] == grown[j]);
            }
        }
    }
}

} // verus!
