//! Structural patterns: the expected shape of a directory, and its compiled
//! form that decides whether a directory's name and direct children fit.

use crate::error::PatternError;
use crate::glob::{glob_matches, matches_any};
use crate::pattern::{compiles_alone, explains, PatternMatcher};
use vstd::prelude::*;
use vstd::string::*;

verus! {

/// The expected shape of a directory: a glob for its own name, globs for the
/// files it must hold, and patterns for the subdirectories it must hold.
/// The optional parts are carried along and play no part in matching.
#[derive(Debug)]
pub struct FileStructurePattern {
    pub directory_name: String,
    pub files: Vec<String>,
    pub directories: Vec<FileStructurePattern>,
    pub optional_files: Vec<String>,
    pub optional_directories: Vec<FileStructurePattern>,
}

/// A structural pattern with every glob compiled.
#[derive(Debug)]
pub struct CompiledPattern {
    /// Absent when any directory name is acceptable.
    pub directory_name_matcher: Option<PatternMatcher>,
    /// One matcher per required file.
    pub file_matchers: Vec<PatternMatcher>,
    /// One matcher per required subdirectory name.
    pub subdir_matchers: Vec<PatternMatcher>,
}

/// Why a structural pattern could not be compiled: which part failed, and how.
#[derive(Clone, Debug, PartialEq, Eq)]
pub enum CompileError {
    /// The pattern for the directory's own name.
    DirectoryName { source: PatternError },
    /// A required file pattern, whose text is `pattern`.
    File { pattern: String, source: PatternError },
    /// The name pattern of a required subdirectory.
    Subdirectory { source: PatternError },
}

/// The mathematical picture of a structural pattern.
pub struct Shape {
    pub directory_name: Seq<char>,
    pub files: Seq<Seq<char>>,
    pub directories: Seq<Shape>,
    pub optional_files: Seq<Seq<char>>,
    pub optional_directories: Seq<Shape>,
}

/// The mathematical picture of a compiled pattern: the glob lists of its
/// matchers.
pub struct CompiledShape {
    pub directory_name: Option<Seq<Seq<char>>>,
    pub files: Seq<Seq<Seq<char>>>,
    pub subdirs: Seq<Seq<Seq<char>>>,
}

/// A name pattern that accepts every name: the empty text or a lone `*`.
pub open spec fn is_wildcard(name: Seq<char>) -> bool {
    name.len() == 0 || (name.len() == 1 && name[0] == '*')
}

/// Each text as a list of its own.
pub open spec fn singletons(texts: Seq<Seq<char>>) -> Seq<Seq<Seq<char>>> {
    texts.map_values(|text: Seq<char>| seq![text])
}

/// Some name among `names` matches one of `globs`.
pub open spec fn some_match(globs: Seq<Seq<char>>, names: Seq<Seq<char>>) -> bool {
    exists|j: int| 0 <= j < names.len() && matches_any(globs, #[trigger] names[j])
}

/// Every text among `texts` compiles into a matcher of its own.
pub open spec fn all_compile(texts: Seq<Seq<char>>) -> bool {
    forall|i: int| 0 <= i < texts.len() ==> compiles_alone(#[trigger] texts[i])
}

/// Compiling the texts one by one fails first at position `at`, with `error`.
pub open spec fn fails_at(texts: Seq<Seq<char>>, at: int, error: PatternError) -> bool {
    &&& 0 <= at < texts.len()
    &&& explains(error, texts[at])
    &&& all_compile(texts.take(at))
}

impl Shape {
    /// The name patterns of the required subdirectories, in order.
    pub open spec fn subdir_names(self) -> Seq<Seq<char>> {
        self.directories.map_values(|directory: Shape| directory.directory_name)
    }

    /// The subdirectory name patterns that restrict anything, in order.
    pub open spec fn required_subdirs(self) -> Seq<Seq<char>> {
        self.subdir_names().filter(|name: Seq<char>| !is_wildcard(name))
    }

    /// Whether the directory's own name is restricted.
    pub open spec fn restricts_name(self) -> bool {
        !is_wildcard(self.directory_name)
    }

    /// Every glob that has to be compiled does compile: the directory's name
    /// if it is restricted, every required file, and every restricted name of
    /// a required subdirectory.
    pub open spec fn compilable(self) -> bool {
        &&& self.restricts_name() ==> compiles_alone(self.directory_name)
        &&& all_compile(self.files)
        &&& all_compile(self.required_subdirs())
    }

    /// What the pattern compiles to: a matcher for the directory's name unless
    /// any name will do, one for each required file, and one for the name of
    /// each required subdirectory whose name is restricted. What a required
    /// subdirectory must itself contain plays no part.
    pub open spec fn compiled(self) -> CompiledShape {
        CompiledShape {
            directory_name: if self.restricts_name() {
                Some(seq![self.directory_name])
            } else {
                None
            },
            files: singletons(self.files),
            subdirs: singletons(self.required_subdirs()),
        }
    }
}

impl CompiledShape {
    /// Whether a directory with the given name and direct children fits:
    /// its name matches the name matcher if there is one, every file matcher
    /// matches at least one file name, and every subdirectory matcher matches
    /// at least one subdirectory name.
    pub open spec fn accepts(
        self,
        name: Seq<char>,
        dirnames: Seq<Seq<char>>,
        filenames: Seq<Seq<char>>,
    ) -> bool {
        &&& self.directory_name matches Some(globs) ==> matches_any(globs, name)
        &&& forall|i: int|
            0 <= i < self.files.len() ==> some_match(#[trigger] self.files[i], filenames)
        &&& forall|i: int|
            0 <= i < self.subdirs.len() ==> some_match(#[trigger] self.subdirs[i], dirnames)
    }
}

impl FileStructurePattern {
    /// The pattern as plain mathematical data, nested patterns included.
    pub open spec fn shape(self) -> Shape
        decreases self,
    {
        Shape {
            directory_name: self.directory_name@,
            files: self.files.deep_view(),
            directories: Seq::new(
                self.directories.len() as nat,
                |i: int|
                    if 0 <= i < self.directories.len() {
                        self.directories[i].shape()
                    } else {
                        arbitrary()
                    },
            ),
            optional_files: self.optional_files.deep_view(),
            optional_directories: Seq::new(
                self.optional_directories.len() as nat,
                |i: int|
                    if 0 <= i < self.optional_directories.len() {
                        self.optional_directories[i].shape()
                    } else {
                        arbitrary()
                    },
            ),
        }
    }
}

impl View for FileStructurePattern {
    type V = Shape;

    open spec fn view(&self) -> Shape {
        self.shape()
    }
}

impl View for CompiledPattern {
    type V = CompiledShape;

    open spec fn view(&self) -> CompiledShape {
        CompiledShape {
            directory_name: match self.directory_name_matcher {
                Some(matcher) => Some(matcher@),
                None => None,
            },
            files: self.file_matchers@.map_values(|matcher: PatternMatcher| matcher@),
            subdirs: self.subdir_matchers@.map_values(|matcher: PatternMatcher| matcher@),
        }
    }
}

impl CompileError {
    /// The text of the error as shown to a caller.
    pub open spec fn message_text(self) -> Seq<char> {
        match self {
            CompileError::DirectoryName { source } => "Invalid directory pattern: "@
                + source.message_text(),
            CompileError::File { pattern, source } => "Invalid file pattern '"@ + pattern@ + "': "@
                + source.message_text(),
            CompileError::Subdirectory { source } => "Invalid subdirectory pattern: "@
                + source.message_text(),
        }
    }

    /// Renders the error: the part of the pattern that failed, then the
    /// message of the underlying error.
    pub fn message(&self) -> (text: String)
        ensures
            text@ == self.message_text(),
    {
        match self {
            CompileError::DirectoryName { source } => {
                let mut text = String::from_str("Invalid directory pattern: ");
                text.append(source.message().as_str());
                text
            },
            CompileError::File { pattern, source } => {
                let mut text = String::from_str("Invalid file pattern '");
                text.append(pattern.as_str());
                text.append("': ");
                text.append(source.message().as_str());
                text
            },
            CompileError::Subdirectory { source } => {
                let mut text = String::from_str("Invalid subdirectory pattern: ");
                text.append(source.message().as_str());
                text
            },
        }
    }
}

/// A pattern that restricts nothing but asks for one file fits exactly the
/// directories that hold at least one file matching that glob; in particular
/// it fits no directory without files.
pub proof fn law_one_required_file(
    shape: Shape,
    name: Seq<char>,
    dirnames: Seq<Seq<char>>,
    filenames: Seq<Seq<char>>,
)
    requires
        is_wildcard(shape.directory_name),
        shape.files.len() == 1,
        shape.directories.len() == 0,
    ensures
        shape.compiled().accepts(name, dirnames, filenames) <==> exists|j: int|
            0 <= j < filenames.len() && glob_matches(shape.files[0], #[trigger] filenames[j]),
        filenames.len() == 0 ==> !shape.compiled().accepts(name, dirnames, filenames),
{
    reveal(Seq::filter);
    let compiled = shape.compiled();
    assert(shape.subdir_names() =~= Seq::<Seq<char>>::empty());
    assert(compiled.subdirs =~= Seq::<Seq<Seq<char>>>::empty());
    assert(compiled.files[0] == seq![shape.files[0]]);
    if compiled.accepts(name, dirnames, filenames) {
        assert(some_match(compiled.files[0], filenames));
        let j = choose|j: int|
            0 <= j < filenames.len() && matches_any(compiled.files[0], #[trigger] filenames[j]);
        let i = choose|i: int|
            0 <= i < compiled.files[0].len() && glob_matches(
                #[trigger] compiled.files[0][i],
                filenames[j],
            );
        assert(glob_matches(shape.files[0], filenames[j]));
    }
    if exists|j: int|
        0 <= j < filenames.len() && glob_matches(shape.files[0], #[trigger] filenames[j]) {
        let j = choose|j: int|
            0 <= j < filenames.len() && glob_matches(shape.files[0], #[trigger] filenames[j]);
        assert(glob_matches(compiled.files[0][0], filenames[j]));
        assert(matches_any(compiled.files[0], filenames[j]));
        assert(some_match(compiled.files[0], filenames));
    }
}

/// A pattern that asks only for one subdirectory fits exactly the directories
/// with a direct subdirectory whose name matches that subdirectory's name
/// glob. What the pattern says the subdirectory must itself contain has no
/// influence: the test is on names, one level deep.
pub proof fn law_subdirectory_by_name_only(
    shape: Shape,
    name: Seq<char>,
    dirnames: Seq<Seq<char>>,
    filenames: Seq<Seq<char>>,
)
    requires
        is_wildcard(shape.directory_name),
        shape.files.len() == 0,
        shape.directories.len() == 1,
        !is_wildcard(shape.directories[0].directory_name),
    ensures
        shape.compiled().accepts(name, dirnames, filenames) <==> exists|j: int|
            0 <= j < dirnames.len() && glob_matches(
                shape.directories[0].directory_name,
                #[trigger] dirnames[j],
            ),
{
    reveal_with_fuel(Seq::filter, 2);
    let compiled = shape.compiled();
    let wanted = shape.directories[0].directory_name;
    assert(shape.subdir_names() =~= seq![wanted]);
    assert(shape.subdir_names().drop_last() =~= Seq::<Seq<char>>::empty());
    assert(shape.required_subdirs() =~= seq![wanted]);
    assert(compiled.subdirs =~= seq![seq![wanted]]);
    assert(compiled.files =~= Seq::<Seq<Seq<char>>>::empty());
    if compiled.accepts(name, dirnames, filenames) {
        assert(some_match(compiled.subdirs[0], dirnames));
        let j = choose|j: int|
            0 <= j < dirnames.len() && matches_any(compiled.subdirs[0], #[trigger] dirnames[j]);
        let i = choose|i: int|
            0 <= i < compiled.subdirs[0].len() && glob_matches(
                #[trigger] compiled.subdirs[0][i],
                dirnames[j],
            );
        assert(glob_matches(wanted, dirnames[j]));
    }
    if exists|j: int| 0 <= j < dirnames.len() && glob_matches(wanted, #[trigger] dirnames[j]) {
        let j = choose|j: int|
            0 <= j < dirnames.len() && glob_matches(wanted, #[trigger] dirnames[j]);
        assert(glob_matches(compiled.subdirs[0][0], dirnames[j]));
        assert(matches_any(compiled.subdirs[0], dirnames[j]));
        assert(some_match(compiled.subdirs[0], dirnames));
    }
}

/// Two patterns that agree on their own name, their files and the names of
/// their subdirectories compile to the same thing, however their
/// subdirectories differ inside.
pub proof fn law_compilation_is_shallow(first: Shape, second: Shape)
    requires
        first.directory_name == second.directory_name,
        first.files == second.files,
        first.subdir_names() == second.subdir_names(),
    ensures
        first.compiled() == second.compiled(),
{
}

/// Tells whether a name pattern accepts every name.
pub fn accepts_every_name(name: &String) -> (wild: bool)
    ensures
        wild == is_wildcard(name@),
{
    let text = name.as_str();
    let length = text.unicode_len();
    length == 0 || (length == 1 && text.get_char(0) == '*')
}

/// Copies a list of texts.
fn copy_texts(texts: &Vec<String>) -> (copy: Vec<String>)
    ensures
        copy.deep_view() == texts.deep_view(),
{
    let mut copy: Vec<String> = Vec::new();
    let mut i: usize = 0;
    while i < texts.len()
        invariant
            i <= texts.len(),
            copy.deep_view() == texts.deep_view().take(i as int),
        decreases texts.len() - i,
    {
        let ghost earlier = copy.deep_view();
        copy.push(texts[i].clone());
        proof {
            assert(copy.deep_view() =~= earlier.push(texts[i as int]@));
            assert(texts.deep_view().take(i + 1) =~= texts.deep_view().take(i as int).push(
                texts[i as int]@,
            ));
        }
        i += 1;
    }
    proof {
        assert(texts.deep_view().take(texts.len() as int) =~= texts.deep_view());
    }
    copy
}

/// Copies a list of patterns, nested patterns included.
fn copy_patterns(patterns: &Vec<FileStructurePattern>) -> (copy: Vec<FileStructurePattern>)
    ensures
        copy.len() == patterns.len(),
        forall|k: int| 0 <= k < copy.len() ==> (#[trigger] copy[k])@ == patterns[k]@,
    decreases patterns,
{
    let mut copy: Vec<FileStructurePattern> = Vec::new();
    let mut i: usize = 0;
    while i < patterns.len()
        invariant
            i <= patterns.len(),
            copy.len() == i,
            forall|k: int| 0 <= k < copy.len() ==> (#[trigger] copy[k])@ == patterns[k]@,
        decreases patterns.len() - i,
    {
        copy.push(patterns[i].clone());
        i += 1;
    }
    copy
}

impl Clone for FileStructurePattern {
    /// A copy with the same shape throughout.
    fn clone(&self) -> (copy: Self)
        ensures
            copy@ == self@,
        decreases self,
    {
        let directories = copy_patterns(&self.directories);
        let optional_directories = copy_patterns(&self.optional_directories);
        let copy = FileStructurePattern {
            directory_name: self.directory_name.clone(),
            files: copy_texts(&self.files),
            directories,
            optional_files: copy_texts(&self.optional_files),
            optional_directories,
        };
        proof {
            assert(copy.shape().directories =~= self.shape().directories);
            assert(copy.shape().optional_directories =~= self.shape().optional_directories);
        }
        copy
    }
}

/// Among the restricting names, the ones found in the first `j` names come
/// first, and `names[j]` follows them if it restricts.
proof fn lemma_restricting_prefix(names: Seq<Seq<char>>, j: int)
    requires
        0 <= j < names.len(),
    ensures
        ({
            let restricting = |name: Seq<char>| !is_wildcard(name);
            let done = names.take(j).filter(restricting);
            let all = names.filter(restricting);
            &&& names.take(j + 1).filter(restricting) == if is_wildcard(names[j]) {
                done
            } else {
                done.push(names[j])
            }
            &&& done.len() <= all.len()
            &&& all.take(done.len() as int) == done
            &&& !is_wildcard(names[j]) ==> done.len() < all.len() && all[done.len() as int]
                == names[j]
        }),
{
    let restricting = |name: Seq<char>| !is_wildcard(name);
    let done = names.take(j).filter(restricting);
    let next = names.take(j + 1).filter(restricting);
    assert(names.take(j + 1) =~= names.take(j).push(names[j]));
    names.take(j).lemma_filter_push(names[j], restricting);
    assert(names =~= names.take(j + 1) + names.skip(j + 1));
    Seq::filter_distributes_over_add(names.take(j + 1), names.skip(j + 1), restricting);
    let all = names.filter(restricting);
    assert(all == next + names.skip(j + 1).filter(restricting));
    assert(all.take(done.len() as int) =~= done);
}

/// Tells whether some name of the list matches the matcher.
fn matches_some(matcher: &PatternMatcher, names: &[String]) -> (found: bool)
    ensures
        found == some_match(matcher@, names.deep_view()),
{
    let mut j: usize = 0;
    while j < names.len()
        invariant
            j <= names.len(),
            forall|k: int| 0 <= k < j ==> !matches_any(matcher@, #[trigger] names.deep_view()[k]),
        decreases names.len() - j,
    {
        if matcher.matches(names[j].as_str()) {
            proof {
                assert(matches_any(matcher@, names.deep_view()[j as int]));
            }
            return true;
        }
        j += 1;
    }
    false
}

impl FileStructurePattern {
    /// Compiles every glob of the pattern once, so that matching never
    /// compiles again.
    ///
    /// The globs are compiled in order: the directory's own name (unless any
    /// name will do), each required file, then the name of each required
    /// subdirectory whose name is restricted. The first one that fails ends
    /// the compilation with an error that says which part it was; nothing
    /// partly compiled is handed out. Compilation succeeds exactly when every
    /// one of these globs compiles on its own.
    pub fn compile(&self) -> (made: Result<CompiledPattern, CompileError>)
        ensures
            made is Ok <==> self@.compilable(),
            match made {
                Ok(compiled) => compiled@ == self@.compiled(),
                Err(CompileError::DirectoryName { source }) => self@.restricts_name() && explains(
                    source,
                    self@.directory_name,
                ),
                Err(CompileError::File { pattern, source }) => {
                    &&& self@.restricts_name() ==> compiles_alone(self@.directory_name)
                    &&& exists|at: int| #[trigger]
                        fails_at(self@.files, at, source) && pattern@ == self@.files[at]
                },
                Err(CompileError::Subdirectory { source }) => {
                    &&& self@.restricts_name() ==> compiles_alone(self@.directory_name)
                    &&& all_compile(self@.files)
                    &&& exists|at: int| #[trigger] fails_at(self@.required_subdirs(), at, source)
                },
            },
    {
        let directory_name_matcher = if accepts_every_name(&self.directory_name) {
            None
        } else {
            match PatternMatcher::single(self.directory_name.as_str()) {
                Ok(matcher) => Some(matcher),
                Err(source) => {
                    return Err(CompileError::DirectoryName { source });
                },
            }
        };
        let ghost files = self@.files;
        let mut file_matchers: Vec<PatternMatcher> = Vec::new();
        let mut i: usize = 0;
        proof {
            assert(file_matchers@.map_values(|matcher: PatternMatcher| matcher@) =~= singletons(
                files.take(0),
            ));
        }
        while i < self.files.len()
            invariant
                i <= self.files.len(),
                files == self@.files,
                files == self.files.deep_view(),
                self@.restricts_name() ==> compiles_alone(self@.directory_name),
                file_matchers@.map_values(|matcher: PatternMatcher| matcher@) == singletons(
                    files.take(i as int),
                ),
                all_compile(files.take(i as int)),
            decreases self.files.len() - i,
        {
            let ghost earlier = file_matchers@;
            match PatternMatcher::single(self.files[i].as_str()) {
                Ok(matcher) => {
                    file_matchers.push(matcher);
                    proof {
                        assert(file_matchers@.map_values(|matcher: PatternMatcher| matcher@)
                            =~= earlier.map_values(|matcher: PatternMatcher| matcher@).push(
                            seq![files[i as int]],
                        ));
                    }
                },
                Err(source) => {
                    proof {
                        assert(fails_at(files, i as int, source));
                    }
                    return Err(CompileError::File { pattern: self.files[i].clone(), source });
                },
            }
            proof {
                assert(files.take(i + 1) =~= files.take(i as int).push(files[i as int]));
                assert(singletons(files.take(i + 1)) =~= singletons(files.take(i as int)).push(
                    seq![files[i as int]],
                ));
            }
            i += 1;
        }
        proof {
            assert(files.take(files.len() as int) =~= files);
        }
        let ghost names = self@.subdir_names();
        let ghost restricting = |name: Seq<char>| !is_wildcard(name);
        let mut subdir_matchers: Vec<PatternMatcher> = Vec::new();
        let mut j: usize = 0;
        proof {
            reveal(Seq::filter);
            assert(names.take(0) =~= Seq::<Seq<char>>::empty());
            assert(subdir_matchers@.map_values(|matcher: PatternMatcher| matcher@) =~= singletons(
                names.take(0).filter(restricting),
            ));
        }
        while j < self.directories.len()
            invariant
                j <= self.directories.len(),
                names == self@.subdir_names(),
                names.len() == self.directories.len(),
                restricting == |name: Seq<char>| !is_wildcard(name),
                self@.restricts_name() ==> compiles_alone(self@.directory_name),
                all_compile(self@.files),
                subdir_matchers@.map_values(|matcher: PatternMatcher| matcher@) == singletons(
                    names.take(j as int).filter(restricting),
                ),
                all_compile(names.take(j as int).filter(restricting)),
            decreases self.directories.len() - j,
        {
            let name = &self.directories[j].directory_name;
            let ghost earlier = subdir_matchers@;
            let ghost done = names.take(j as int).filter(restricting);
            proof {
                assert(names[j as int] == name@) by {
                    reveal_with_fuel(FileStructurePattern::shape, 2);
                }
                lemma_restricting_prefix(names, j as int);
            }
            if !accepts_every_name(name) {
                match PatternMatcher::single(name.as_str()) {
                    Ok(matcher) => {
                        subdir_matchers.push(matcher);
                        proof {
                            assert(subdir_matchers@.map_values(|matcher: PatternMatcher| matcher@)
                                =~= earlier.map_values(|matcher: PatternMatcher| matcher@).push(
                                seq![name@],
                            ));
                            assert(singletons(done.push(name@)) =~= singletons(done).push(
                                seq![name@],
                            ));
                        }
                    },
                    Err(source) => {
                        proof {
                            assert(fails_at(
                                self@.required_subdirs(),
                                done.len() as int,
                                source,
                            ));
                        }
                        return Err(CompileError::Subdirectory { source });
                    },
                }
            }
            j += 1;
        }
        proof {
            assert(names.take(names.len() as int) =~= names);
        }
        let compiled = CompiledPattern { directory_name_matcher, file_matchers, subdir_matchers };
        proof {
            assert(compiled@.directory_name == self@.compiled().directory_name);
        }
        Ok(compiled)
    }
}

impl CompiledPattern {
    /// Decides whether a directory fits the pattern, from its own name and
    /// the names of its direct children alone. The checks run in order and
    /// stop at the first that fails: the directory's name, then each required
    /// file, then each required subdirectory name.
    pub fn matches(&self, dirpath_name: &str, dirnames: &[String], filenames: &[String]) -> (fits:
        bool)
        ensures
            fits == self@.accepts(dirpath_name@, dirnames.deep_view(), filenames.deep_view()),
    {
        if let Some(matcher) = &self.directory_name_matcher {
            if !matcher.matches(dirpath_name) {
                return false;
            }
        }
        let mut i: usize = 0;
        while i < self.file_matchers.len()
            invariant
                i <= self.file_matchers.len(),
                forall|k: int|
                    0 <= k < i ==> some_match(#[trigger] self@.files[k], filenames.deep_view()),
            decreases self.file_matchers.len() - i,
        {
            if !matches_some(&self.file_matchers[i], filenames) {
                proof {
                    assert(!some_match(self@.files[i as int], filenames.deep_view()));
                }
                return false;
            }
            i += 1;
        }
        let mut j: usize = 0;
        while j < self.subdir_matchers.len()
            invariant
                j <= self.subdir_matchers.len(),
                forall|k: int|
                    0 <= k < self@.files.len() ==> some_match(
                        #[trigger] self@.files[k],
                        filenames.deep_view(),
                    ),
                forall|k: int|
                    0 <= k < j ==> some_match(#[trigger] self@.subdirs[k], dirnames.deep_view()),
            decreases self.subdir_matchers.len() - j,
        {
            if !matches_some(&self.subdir_matchers[j], dirnames) {
                proof {
                    assert(!some_match(self@.subdirs[j as int], dirnames.deep_view()));
                }
                return false;
            }
            j += 1;
        }
        true
    }
}

} // verus!
