//! The analysed program: its source files, which of them is the main
//! file and which are libraries (read from the manifest), and the walk
//! from `main` that reports every lock acquisition.

use crate::detector::{events_view, LockEvent, LockEventView};
use crate::items::{
    find_return_type, items_view, new_vec_spec, return_type_spec, AnalysisError, ItemType, ItemView,
};
use crate::symbol_table::{append_arc_spec, append_spec, get_spec, symbolTable, SymbolView};
use crate::syntax::{build_tree, bytes_fit, counts_fit, parse_rust, rust_parse, nodes_view, SyntaxTree};
use crate::text::{
    before_last, before_last_spec, bytes_eq, concat, contains, contains_spec, copy_bytes, ends_with,
    is_prefix, is_suffix, lemma_bytes_deep_view, lines, lines_spec, literal, split, split_spec,
    starts_with, block_id, char_boundary, join_spec, replace_spec, dash, suffix_from, copy_range,
    join_from, make_block_id, replace, occurs_at, index_of,
};
use vstd::prelude::*;
use vstd::string::StringSliceAdditionalSpecFns;

verus! {

broadcast use lemma_bytes_deep_view;

/// What the manifest says a file is.
#[derive(Debug)]
pub enum LibType {
    /// The root of the library crate of that name.
    Name(Vec<u8>),
    /// The binary's main file, at that path.
    Main(Vec<u8>),
    /// Not named by the manifest.
    MT,
}

/// The value of a [`LibType`].
pub enum LibView {
    Name(Seq<u8>),
    Main(Seq<u8>),
    MT,
}

impl View for LibType {
    type V = LibView;

    open spec fn view(&self) -> LibView {
        match self {
            LibType::Name(n) => LibView::Name(n@),
            LibType::Main(p) => LibView::Main(p@),
            LibType::MT => LibView::MT,
        }
    }
}

/// A source file of the analysed program.
pub struct File {
    /// Its path.
    pub path: Vec<u8>,
    /// Its source code.
    pub code: Vec<u8>,
    /// Its syntax tree.
    pub ast: SyntaxTree,
    /// What the manifest says it is.
    pub lib_name: LibType,
    /// Its functions, grouped by `impl` block.
    pub item_list: Vec<ItemType>,
}

/// The counters that number threads, blocks and symbols across the walk.
#[derive(Clone, Copy)]
pub struct Counters {
    pub tid_count: i32,
    pub block_count: i32,
    pub symbol_id: i32,
}

/// The files of the analysed program and the walk's counters.
pub struct FileVector {
    file_vec: Vec<File>,
    counters: Counters,
}

/// Whether a directory entry is kept by the walk over the program: a
/// directory or a `.rs` file, whose name does not start with `.`. A name
/// that is not UTF-8 (`None`) counts as neither.
pub open spec fn dir_or_rs_spec(file_name: Option<Seq<u8>>, is_dir: bool) -> bool {
    ((file_name matches Some(n) && is_suffix(".rs".spec_bytes(), n)) || is_dir) && !(file_name matches Some(n)
        && is_prefix(".".spec_bytes(), n))
}

/// Whether a directory entry is kept by the walk over the program.
pub fn is_dir_or_rs(file_name: &Option<Vec<u8>>, is_dir: bool) -> (res: bool)
    ensures
        res == dir_or_rs_spec(file_name.deep_view(), is_dir),
{
    let rs = match file_name {
        Some(n) => ends_with(n.as_slice(), literal(".rs")),
        None => false,
    };
    let hidden = match file_name {
        Some(n) => starts_with(n.as_slice(), literal(".")),
        None => false,
    };
    (rs || is_dir) && !hidden
}

/// Whether a file name is that of a Rust source file.
pub fn is_rust(file_name: &[u8]) -> (res: bool)
    ensures
        res == is_suffix(".rs".spec_bytes(), file_name@),
{
    ends_with(file_name, literal(".rs"))
}

impl File {
    /// The file's tree fits its code.
    pub open spec fn wf(&self) -> bool {
        self.ast.wf(self.code@.len() as int)
    }
}

impl FileVector {
    /// The files, in order.
    pub closed spec fn files(&self) -> Seq<File> {
        self.file_vec@
    }

    /// The walk's counters.
    pub closed spec fn counters(&self) -> Counters {
        self.counters
    }

    /// Every file's tree fits its code, and the block counter is not
    /// negative.
    pub open spec fn wf(&self) -> bool {
        &&& forall|i: int| 0 <= i < self.files().len() ==> #[trigger] self.files()[i].wf()
        &&& self.counters().block_count >= 0
    }

    /// No files yet; the counters at 0.
    pub fn new() -> (res: FileVector)
        ensures
            res.files() == Seq::<File>::empty(),
            res.counters() == (Counters { tid_count: 0, block_count: 0, symbol_id: 0 }),
            res.wf(),
    {
        let file_vec: Vec<File> = Vec::new();
        FileVector { file_vec, counters: Counters { tid_count: 0, block_count: 0, symbol_id: 0 } }
    }

    /// The number of files.
    pub fn len(&self) -> (n: usize)
        ensures
            n == self.files().len(),
    {
        self.file_vec.len()
    }

    /// The path of file `i`.
    pub fn path(&self, i: usize) -> (p: &Vec<u8>)
        requires
            i < self.files().len(),
        ensures
            p@ == self.files()[i as int].path@,
    {
        &self.file_vec[i]
            .path
    }

    /// What the manifest says file `i` is.
    pub fn lib_name(&self, i: usize) -> (l: &LibType)
        requires
            i < self.files().len(),
        ensures
            l@ == self.files()[i as int].lib_name@,
    {
        &self.file_vec[i].lib_name
    }

    /// Adds the source file at `path` with the text `code`: parses it and
    /// lists its items (what `File::new` does once the file is read).
    /// Fails with `ParseFailed` when the parser gives no tree, or one whose
    /// nodes do not make a tree over the code; otherwise fails exactly as
    /// listing the items of that tree does.
    pub fn add_file(&mut self, path: Vec<u8>, code: Vec<u8>) -> (res: Result<(), AnalysisError>)
        requires
            old(self).wf(),
        ensures
            final(self).wf(),
            final(self).counters() == old(self).counters(),
            res == Err::<(), AnalysisError>(AnalysisError::ParseFailed) <==> !(rust_parse(code@) matches Some(pv)
                && counts_fit(pv) && bytes_fit(pv, code@.len() as int)),
            res matches Err(e) ==> (e != AnalysisError::ParseFailed ==> exists|t: SyntaxTree|
                #![trigger new_vec_spec(t, code@, 0)]
                {
                    &&& t.wf(code@.len() as int)
                    &&& rust_parse(code@) == Some(nodes_view(t.nodes@))
                    &&& t.fits_parse()
                    &&& new_vec_spec(t, code@, 0) == Err::<Seq<ItemView>, AnalysisError>(e)
                }),
            res is Ok ==> ({
                let f = final(self).files().last();
                &&& final(self).files().len() == old(self).files().len() + 1
                &&& final(self).files().drop_last() == old(self).files()
                &&& f.path@ == path@
                &&& f.code@ == code@
                &&& rust_parse(code@) == Some(nodes_view(f.ast.nodes@))
                &&& f.ast.fits_parse()
                &&& f.lib_name@ == LibView::MT
                &&& new_vec_spec(f.ast, code@, 0) == Ok::<Seq<ItemView>, AnalysisError>(items_view(f.item_list@))
            }),
            res is Err ==> final(self).files() == old(self).files(),
    {
        let parsed = match parse_rust(code.as_slice()) {
            Some(p) => p,
            None => {
                return Err(AnalysisError::ParseFailed);
            },
        };
        let ghost pv = parsed@;
        let ast = match build_tree(parsed, code.len()) {
            Some(t) => t,
            None => {
                return Err(AnalysisError::ParseFailed);
            },
        };
        let empty: Vec<u8> = Vec::new();
        let item_list = match ItemType::new_vec(&ast, code.as_slice(), 0, empty.as_slice()) {
            Ok(l) => l,
            Err(e) => {
                assert(new_vec_spec(ast, code@, 0) == Err::<Seq<ItemView>, AnalysisError>(e));
                return Err(e);
            },
        };
        let f = File { path, code, ast, lib_name: LibType::MT, item_list };
        let ghost before = self.file_vec@;
        self.file_vec.push(f);
        assert(self.files().drop_last() =~= before);
        assert forall|i: int| 0 <= i < self.files().len() implies #[trigger] self.files()[i].wf() by {
            if i < before.len() {
                assert(self.files()[i] == old(self).files()[i]);
                assert(old(self).files()[i].wf());
            } else {
                assert(self.files()[i] == f);
            }
        }
        Ok(())
    }
}

/// The first file at or after `k` that the manifest names the main file.
pub open spec fn first_main(files: Seq<File>, k: int) -> Option<int>
    decreases files.len() - k,
{
    if k < 0 || k >= files.len() {
        None
    } else if files[k].lib_name@ is Main {
        Some(k)
    } else {
        first_main(files, k + 1)
    }
}

/// The first file at or after `k` whose path contains `pat`.
pub open spec fn first_path_with(files: Seq<File>, pat: Seq<u8>, k: int) -> Option<int>
    decreases files.len() - k,
{
    if k < 0 || k >= files.len() {
        None
    } else if contains_spec(files[k].path@, pat) {
        Some(k)
    } else {
        first_path_with(files, pat, k + 1)
    }
}

/// The main file: the first one the manifest names so, else the first
/// whose path contains `main.rs`.
pub open spec fn main_index(files: Seq<File>) -> Option<int> {
    match first_main(files, 0) {
        Some(i) => Some(i),
        None => first_path_with(files, "main.rs".spec_bytes(), 0),
    }
}

/// Lookups that find a file find one in range.
pub proof fn lemma_first_file(files: Seq<File>, pat: Seq<u8>, k: int)
    requires
        0 <= k,
    ensures
        first_main(files, k) matches Some(i) ==> k <= i < files.len(),
        first_path_with(files, pat, k) matches Some(i) ==> k <= i < files.len(),
    decreases files.len() - k,
{
    if k < files.len() {
        lemma_first_file(files, pat, k + 1);
    }
}

impl FileVector {
    /// The first file that the manifest names the main file.
    fn first_main_exec(&self) -> (res: Option<usize>)
        ensures
            match res {
                Some(i) => first_main(self.files(), 0) == Some(i as int),
                None => first_main(self.files(), 0) is None,
            },
    {
        let mut i: usize = 0;
        while i < self.file_vec.len()
            invariant
                i <= self.files().len(),
                first_main(self.files(), 0) == first_main(self.files(), i as int),
            decreases self.files().len() - i,
        {
            if let LibType::Main(_) = &self.file_vec[i].lib_name {
                return Some(i);
            }
            i = i + 1;
        }
        None
    }

    /// The first file whose path contains `pat`.
    fn first_path_with_exec(&self, pat: &[u8]) -> (res: Option<usize>)
        ensures
            match res {
                Some(i) => first_path_with(self.files(), pat@, 0) == Some(i as int),
                None => first_path_with(self.files(), pat@, 0) is None,
            },
    {
        let mut i: usize = 0;
        while i < self.file_vec.len()
            invariant
                i <= self.files().len(),
                first_path_with(self.files(), pat@, 0) == first_path_with(self.files(), pat@, i as int),
            decreases self.files().len() - i,
        {
            if contains(self.file_vec[i].path.as_slice(), pat) {
                return Some(i);
            }
            i = i + 1;
        }
        None
    }

    /// Whether some file is the main file (see [`main_index`]).
    pub fn has_main_file(&self) -> (res: bool)
        ensures
            res == main_index(self.files()) is Some,
    {
        self.first_main_exec().is_some() || self.first_path_with_exec(literal("main.rs")).is_some()
    }

    /// Moves the main file to the front (see [`main_index`]); there must be
    /// one (see [`FileVector::has_main_file`]).
    pub fn find_main(&mut self)
        requires
            old(self).wf(),
            main_index(old(self).files()) is Some,
        ensures
            final(self).wf(),
            final(self).counters() == old(self).counters(),
            final(self).files() == seq![old(self).files()[main_index(old(self).files())->0]]
                + old(self).files().remove(main_index(old(self).files())->0),
    {
        proof {
            lemma_first_file(self.files(), "main.rs".spec_bytes(), 0);
        }
        let mut index = self.first_main_exec();
        if index.is_none() {
            index = self.first_path_with_exec(literal("main.rs"));
        }
        let idx = index.unwrap();
        let ghost before = self.files();
        let main = self.file_vec.remove(idx);
        self.file_vec.insert(0, main);
        assert(self.files() =~= seq![before[idx as int]] + before.remove(idx as int));
        assert forall|j: int| 0 <= j < self.files().len() implies #[trigger] self.files()[j].wf() by {
            if j == 0 {
                assert(before[idx as int].wf());
            } else if j <= idx {
                assert(self.files()[j] == before[j - 1]);
                assert(before[j - 1].wf());
            } else {
                assert(self.files()[j] == before[j]);
                assert(before[j].wf());
            }
        }
    }
}

/// The state of the manifest scan: the section flags, the pending name and
/// path, and the kind of every file.
pub struct TomlState {
    pub name_flag: i32,
    pub path_flag: i32,
    pub name: Seq<u8>,
    pub path: Seq<u8>,
    pub libs: Seq<LibView>,
}

/// Gives the pending name or path to the files from `k` on whose path is
/// the pending path; each match clears the pending name and path.
pub open spec fn assign_libs(paths: Seq<Seq<u8>>, st: TomlState, k: int, main: bool) -> TomlState
    decreases paths.len() - k,
{
    if k < 0 || k >= paths.len() {
        st
    } else {
        let st2 = if paths[k] == st.path {
            TomlState {
                libs: st.libs.update(
                    k,
                    if main {
                        LibView::Main(st.path)
                    } else {
                        LibView::Name(st.name)
                    },
                ),
                name: seq![],
                path: seq![],
                ..st
            }
        } else {
            st
        };
        assign_libs(paths, st2, k + 1, main)
    }
}

/// One line of the manifest. `[lib]` opens the library section (and
/// `[[bin}}` the other one); a `name` line takes the quoted name, a `path`
/// line the quoted path after `base` (the manifest's directory); a name and
/// a path in the library section name a library file, outside it they name
/// the main file. A `name` or `path` line without a quoted value fails
/// with `MissingQuote`.
pub open spec fn toml_line(paths: Seq<Seq<u8>>, base: Option<Seq<u8>>, st: TomlState, line: Seq<u8>) -> Result<TomlState, AnalysisError> {
    let st1 = if line == "[[bin}}".spec_bytes() {
        TomlState { name_flag: 3, path_flag: 3, ..st }
    } else {
        st
    };
    let st2 = if line == "[lib]".spec_bytes() {
        TomlState { name_flag: 1, path_flag: 1, ..st1 }
    } else {
        st1
    };
    let quoted = split_spec(line, "\"".spec_bytes());
    let st3 = if is_prefix("name".spec_bytes(), line) {
        if quoted.len() < 2 {
            Err(AnalysisError::MissingQuote)
        } else {
            Ok(TomlState { name_flag: if st2.name_flag == 1 { 2 } else { 4 }, name: quoted[1], ..st2 })
        }
    } else if is_prefix("path".spec_bytes(), line) {
        let pf = if st2.path_flag == 1 { 2i32 } else { 4i32 };
        match base {
            Some(b) => if quoted.len() < 2 {
                Err(AnalysisError::MissingQuote)
            } else {
                Ok(TomlState { path_flag: pf, path: b + quoted[1], ..st2 })
            },
            None => Ok(TomlState { path_flag: pf, path: seq![], ..st2 }),
        }
    } else {
        Ok(st2)
    };
    match st3 {
        Err(e) => Err(e),
        Ok(s3) => {
            let s4 = if s3.path_flag == 2 && s3.name_flag == 2 {
                TomlState { name_flag: 0, path_flag: 0, ..assign_libs(paths, s3, 0, false) }
            } else {
                s3
            };
            let s5 = if s4.path_flag == 4 && s4.name_flag == 4 {
                TomlState { name_flag: 0, path_flag: 0, ..assign_libs(paths, s4, 0, true) }
            } else {
                s4
            };
            Ok(s5)
        },
    }
}

/// The manifest scan over `lines` from the `k`-th on.
pub open spec fn toml_lines(
    paths: Seq<Seq<u8>>,
    base: Option<Seq<u8>>,
    lines: Seq<Seq<u8>>,
    k: int,
    st: TomlState,
) -> Result<TomlState, AnalysisError>
    decreases lines.len() - k,
{
    if k < 0 || k >= lines.len() {
        Ok(st)
    } else {
        match toml_line(paths, base, st, lines[k]) {
            Err(e) => Err(e),
            Ok(s) => toml_lines(paths, base, lines, k + 1, s),
        }
    }
}

/// The paths of the files.
pub open spec fn file_paths(files: Seq<File>) -> Seq<Seq<u8>> {
    files.map_values(|f: File| f.path@)
}

/// The kinds of the files.
pub open spec fn file_libs(files: Seq<File>) -> Seq<LibView> {
    files.map_values(|f: File| f.lib_name@)
}

/// `b` is `a` with the file kinds `libs`.
pub open spec fn with_libs(a: Seq<File>, b: Seq<File>, libs: Seq<LibView>) -> bool {
    &&& a.len() == b.len()
    &&& libs.len() == a.len()
    &&& forall|i: int|
        0 <= i < a.len() ==> {
            &&& (#[trigger] b[i]).path == a[i].path
            &&& b[i].code == a[i].code
            &&& b[i].ast == a[i].ast
            &&& b[i].item_list == a[i].item_list
            &&& b[i].lib_name@ == libs[i]
        }
}

/// What `read_toml` computes from the manifest text `toml` at `toml_dir`.
pub open spec fn read_toml_spec(files: Seq<File>, toml_dir: Seq<u8>, toml: Seq<u8>) -> Result<TomlState, AnalysisError> {
    toml_lines(
        file_paths(files),
        before_last_spec(toml_dir, "Cargo.toml".spec_bytes()),
        lines_spec(toml),
        0,
        TomlState { name_flag: 0, path_flag: 0, name: seq![], path: seq![], libs: file_libs(files) },
    )
}

/// The first byte of each manifest keyword the scan looks for.
proof fn lemma_manifest_words()
    ensures
        "[lib]".spec_bytes().len() == 5 && "[lib]".spec_bytes()[0] == 91u8,
        "[[bin}}".spec_bytes().len() == 7 && "[[bin}}".spec_bytes()[0] == 91u8,
        "name".spec_bytes().len() == 4 && "name".spec_bytes()[0] == 110u8,
        "path".spec_bytes().len() == 4 && "path".spec_bytes()[0] == 112u8,
{
    reveal_strlit("[lib]");
    reveal_strlit("[[bin}}");
    reveal_strlit("name");
    reveal_strlit("path");
    vstd::string::is_ascii_spec_bytes("[lib]");
    vstd::string::is_ascii_spec_bytes("[[bin}}");
    vstd::string::is_ascii_spec_bytes("name");
    vstd::string::is_ascii_spec_bytes("path");
    assert(vstd::string::is_ascii("[lib]"));
    assert(vstd::string::is_ascii("[[bin}}"));
    assert(vstd::string::is_ascii("name"));
    assert(vstd::string::is_ascii("path"));
}

/// Giving the pending name or path to the files from `k` on leaves the
/// files before `k` as they were.
proof fn lemma_assign_keeps_before(paths: Seq<Seq<u8>>, st: TomlState, k: int, main: bool, j: int)
    requires
        0 <= j < k,
        st.libs.len() == paths.len(),
    ensures
        assign_libs(paths, st, k, main).libs[j] == st.libs[j],
    decreases paths.len() - k,
{
    if k < paths.len() {
        let st2 = if paths[k] == st.path {
            TomlState {
                libs: st.libs.update(
                    k,
                    if main {
                        LibView::Main(st.path)
                    } else {
                        LibView::Name(st.name)
                    },
                ),
                name: seq![],
                path: seq![],
                ..st
            }
        } else {
            st
        };
        lemma_assign_keeps_before(paths, st2, k + 1, main, j);
    }
}

/// The first file from `k` on whose path is the pending path gets the
/// pending name (or, for the main file, the path).
proof fn lemma_assign_first(paths: Seq<Seq<u8>>, st: TomlState, k: int, main: bool, i: int)
    requires
        0 <= k <= i < paths.len(),
        st.libs.len() == paths.len(),
        paths[i] == st.path,
        forall|j: int| k <= j < i ==> paths[j] != st.path,
    ensures
        assign_libs(paths, st, k, main).libs[i] == if main {
            LibView::Main(st.path)
        } else {
            LibView::Name(st.name)
        },
    decreases i - k,
{
    if k < i {
        lemma_assign_first(paths, st, k + 1, main, i);
    } else {
        let st2 = TomlState {
            libs: st.libs.update(
                k,
                if main {
                    LibView::Main(st.path)
                } else {
                    LibView::Name(st.name)
                },
            ),
            name: seq![],
            path: seq![],
            ..st
        };
        lemma_assign_keeps_before(paths, st2, k + 1, main, i);
    }
}

/// A line that starts with `name` and carries a quoted value.
pub open spec fn is_name_line(l: Seq<u8>) -> bool {
    is_prefix("name".spec_bytes(), l) && split_spec(l, "\"".spec_bytes()).len() >= 2
}

/// A line that starts with `path` (not `name`) and carries a quoted value.
pub open spec fn is_path_line(l: Seq<u8>) -> bool {
    !is_prefix("name".spec_bytes(), l) && is_prefix("path".spec_bytes(), l) && split_spec(
        l,
        "\"".spec_bytes(),
    ).len() >= 2
}

/// The quoted value of a manifest line.
pub open spec fn quoted_value(l: Seq<u8>) -> Seq<u8> {
    split_spec(l, "\"".spec_bytes())[1]
}

/// The library section's name and path lines may come in either order:
/// right after `[lib]`, a `name` line and a `path` line, read in either
/// order, mark the first file whose path is the manifest's directory `b`
/// followed by the quoted path as the library of the quoted name.
pub proof fn law_lib_lines_in_either_order(
    paths: Seq<Seq<u8>>,
    b: Seq<u8>,
    st: TomlState,
    nl: Seq<u8>,
    pl: Seq<u8>,
    i: int,
)
    requires
        st.name_flag == 1,
        st.path_flag == 1,
        st.libs.len() == paths.len(),
        is_name_line(nl),
        is_path_line(pl),
        0 <= i < paths.len(),
        paths[i] == b + quoted_value(pl),
        forall|j: int| 0 <= j < i ==> paths[j] != paths[i],
    ensures
        toml_lines(paths, Some(b), seq![nl, pl], 0, st) matches Ok(s) && s.libs[i] == LibView::Name(
            quoted_value(nl),
        ),
        toml_lines(paths, Some(b), seq![pl, nl], 0, st) matches Ok(s) && s.libs[i] == LibView::Name(
            quoted_value(nl),
        ),
{
    lemma_manifest_words();
    assert(nl[0] == "name".spec_bytes()[0]) by {
        assert(nl.subrange(0, 4)[0] == nl[0]);
    }
    assert(pl[0] == "path".spec_bytes()[0]) by {
        assert(pl.subrange(0, 4)[0] == pl[0]);
    }
    assert(nl != "[lib]".spec_bytes() && nl != "[[bin}}".spec_bytes());
    assert(pl != "[lib]".spec_bytes() && pl != "[[bin}}".spec_bytes());
    let p = b + quoted_value(pl);
    let n = quoted_value(nl);
    // name, then path
    let a1 = TomlState { name_flag: 2, name: n, ..st };
    assert(toml_line(paths, Some(b), st, nl) == Ok::<TomlState, AnalysisError>(a1));
    let a2 = TomlState { path_flag: 2, path: p, ..a1 };
    let a3 = TomlState { name_flag: 0, path_flag: 0, ..assign_libs(paths, a2, 0, false) };
    assert(toml_line(paths, Some(b), a1, pl) == Ok::<TomlState, AnalysisError>(a3));
    lemma_assign_first(paths, a2, 0, false, i);
    assert(toml_lines(paths, Some(b), seq![nl, pl], 2, a3) == Ok::<TomlState, AnalysisError>(a3));
    assert(toml_lines(paths, Some(b), seq![nl, pl], 1, a1) == Ok::<TomlState, AnalysisError>(a3));
    // path, then name
    let b1 = TomlState { path_flag: 2, path: p, ..st };
    assert(toml_line(paths, Some(b), st, pl) == Ok::<TomlState, AnalysisError>(b1));
    let b2 = TomlState { name_flag: 2, name: n, ..b1 };
    let b3 = TomlState { name_flag: 0, path_flag: 0, ..assign_libs(paths, b2, 0, false) };
    assert(toml_line(paths, Some(b), b1, nl) == Ok::<TomlState, AnalysisError>(b3));
    lemma_assign_first(paths, b2, 0, false, i);
    assert(toml_lines(paths, Some(b), seq![pl, nl], 2, b3) == Ok::<TomlState, AnalysisError>(b3));
    assert(toml_lines(paths, Some(b), seq![pl, nl], 1, b1) == Ok::<TomlState, AnalysisError>(b3));
}

/// Outside the library section, a `name` line and a `path` line name the
/// main file, in either order: from a scan state with no pending line of
/// either kind, the two lines read in either order mark the first file
/// whose path is the manifest's directory `b` followed by the quoted path
/// as the main file.
pub proof fn law_main_lines_in_either_order(
    paths: Seq<Seq<u8>>,
    b: Seq<u8>,
    st: TomlState,
    nl: Seq<u8>,
    pl: Seq<u8>,
    i: int,
)
    requires
        st.name_flag == 0 || st.name_flag == 3,
        st.path_flag == 0 || st.path_flag == 3,
        st.libs.len() == paths.len(),
        is_name_line(nl),
        is_path_line(pl),
        0 <= i < paths.len(),
        paths[i] == b + quoted_value(pl),
        forall|j: int| 0 <= j < i ==> paths[j] != paths[i],
    ensures
        toml_lines(paths, Some(b), seq![nl, pl], 0, st) matches Ok(s) && s.libs[i] == LibView::Main(paths[i]),
        toml_lines(paths, Some(b), seq![pl, nl], 0, st) matches Ok(s) && s.libs[i] == LibView::Main(paths[i]),
{
    lemma_manifest_words();
    assert(nl[0] == "name".spec_bytes()[0]) by {
        assert(nl.subrange(0, 4)[0] == nl[0]);
    }
    assert(pl[0] == "path".spec_bytes()[0]) by {
        assert(pl.subrange(0, 4)[0] == pl[0]);
    }
    assert(nl != "[lib]".spec_bytes() && nl != "[[bin}}".spec_bytes());
    assert(pl != "[lib]".spec_bytes() && pl != "[[bin}}".spec_bytes());
    let p = b + quoted_value(pl);
    let n = quoted_value(nl);
    let a1 = TomlState { name_flag: 4, name: n, ..st };
    assert(toml_line(paths, Some(b), st, nl) == Ok::<TomlState, AnalysisError>(a1));
    let a2 = TomlState { path_flag: 4, path: p, ..a1 };
    let a3 = TomlState { name_flag: 0, path_flag: 0, ..assign_libs(paths, a2, 0, true) };
    assert(toml_line(paths, Some(b), a1, pl) == Ok::<TomlState, AnalysisError>(a3));
    lemma_assign_first(paths, a2, 0, true, i);
    assert(toml_lines(paths, Some(b), seq![nl, pl], 2, a3) == Ok::<TomlState, AnalysisError>(a3));
    assert(toml_lines(paths, Some(b), seq![nl, pl], 1, a1) == Ok::<TomlState, AnalysisError>(a3));
    let b1 = TomlState { path_flag: 4, path: p, ..st };
    assert(toml_line(paths, Some(b), st, pl) == Ok::<TomlState, AnalysisError>(b1));
    let b2 = TomlState { name_flag: 4, name: n, ..b1 };
    let b3 = TomlState { name_flag: 0, path_flag: 0, ..assign_libs(paths, b2, 0, true) };
    assert(toml_line(paths, Some(b), b1, nl) == Ok::<TomlState, AnalysisError>(b3));
    lemma_assign_first(paths, b2, 0, true, i);
    assert(toml_lines(paths, Some(b), seq![pl, nl], 2, b3) == Ok::<TomlState, AnalysisError>(b3));
    assert(toml_lines(paths, Some(b), seq![pl, nl], 1, b1) == Ok::<TomlState, AnalysisError>(b3));
}

/// A manifest section `[lib]` followed by its `name` and `path` lines, in
/// either order, marks the first file whose path is the manifest's
/// directory `b` followed by the quoted path as the library of the quoted
/// name, whatever came before the section.
pub proof fn law_lib_section_marks_library(
    paths: Seq<Seq<u8>>,
    b: Seq<u8>,
    st: TomlState,
    nl: Seq<u8>,
    pl: Seq<u8>,
    i: int,
)
    requires
        st.libs.len() == paths.len(),
        is_name_line(nl),
        is_path_line(pl),
        0 <= i < paths.len(),
        paths[i] == b + quoted_value(pl),
        forall|j: int| 0 <= j < i ==> paths[j] != paths[i],
    ensures
        toml_lines(paths, Some(b), seq!["[lib]".spec_bytes(), nl, pl], 0, st) matches Ok(s) && s.libs[i]
            == LibView::Name(quoted_value(nl)),
        toml_lines(paths, Some(b), seq!["[lib]".spec_bytes(), pl, nl], 0, st) matches Ok(s) && s.libs[i]
            == LibView::Name(quoted_value(nl)),
{
    lemma_manifest_words();
    let lib = "[lib]".spec_bytes();
    assert(lib != "[[bin}}".spec_bytes());
    assert(!is_prefix("name".spec_bytes(), lib)) by {
        if is_prefix("name".spec_bytes(), lib) {
            assert(lib.subrange(0, 4)[0] == lib[0]);
        }
    }
    assert(!is_prefix("path".spec_bytes(), lib)) by {
        if is_prefix("path".spec_bytes(), lib) {
            assert(lib.subrange(0, 4)[0] == lib[0]);
        }
    }
    let s1 = TomlState { name_flag: 1, path_flag: 1, ..st };
    assert(toml_line(paths, Some(b), st, lib) == Ok::<TomlState, AnalysisError>(s1));
    law_lib_lines_in_either_order(paths, b, s1, nl, pl, i);
    let la = seq![lib, nl, pl];
    let lb = seq![lib, pl, nl];
    assert(seq![nl, pl] =~= la.subrange(1, 3));
    assert(seq![pl, nl] =~= lb.subrange(1, 3));
    lemma_toml_lines_shift(paths, Some(b), la, s1);
    lemma_toml_lines_shift(paths, Some(b), lb, s1);
}

/// Scanning lines from the second on is scanning the list without its
/// first line.
proof fn lemma_toml_lines_shift(paths: Seq<Seq<u8>>, base: Option<Seq<u8>>, lines: Seq<Seq<u8>>, st: TomlState)
    requires
        lines.len() == 3,
    ensures
        toml_lines(paths, base, lines, 1, st) == toml_lines(paths, base, lines.subrange(1, 3), 0, st),
{
    let l2 = lines.subrange(1, 3);
    assert(l2[0] == lines[1] && l2[1] == lines[2]);
    match toml_line(paths, base, st, lines[1]) {
        Err(e) => {},
        Ok(s) => {
            match toml_line(paths, base, s, lines[2]) {
                Err(e) => {
                    assert(toml_lines(paths, base, lines, 2, s) == Err::<TomlState, AnalysisError>(e));
                    assert(toml_lines(paths, base, l2, 1, s) == Err::<TomlState, AnalysisError>(e));
                },
                Ok(s2) => {
                    assert(toml_lines(paths, base, lines, 3, s2) == Ok::<TomlState, AnalysisError>(s2));
                    assert(toml_lines(paths, base, l2, 2, s2) == Ok::<TomlState, AnalysisError>(s2));
                    assert(toml_lines(paths, base, lines, 2, s) == Ok::<TomlState, AnalysisError>(s2));
                    assert(toml_lines(paths, base, l2, 1, s) == Ok::<TomlState, AnalysisError>(s2));
                },
            }
            assert(toml_lines(paths, base, lines, 2, s) == toml_lines(paths, base, l2, 1, s));
        },
    }
}

/// A manifest line has the quoted value it needs: a `name` line always,
/// a `path` line when the manifest's directory is known (`base`).
pub open spec fn line_quoted(line: Seq<u8>, base: Option<Seq<u8>>) -> bool {
    &&& is_prefix("name".spec_bytes(), line) ==> split_spec(line, "\"".spec_bytes()).len() >= 2
    &&& !is_prefix("name".spec_bytes(), line) && is_prefix("path".spec_bytes(), line) && base is Some
        ==> split_spec(line, "\"".spec_bytes()).len() >= 2
}

/// Every line of the manifest `toml` at `toml_dir` has the quoted value it
/// needs; reading any other manifest panics.
pub open spec fn manifest_quoted(toml_dir: Seq<u8>, toml: Seq<u8>) -> bool {
    forall|i: int|
        0 <= i < lines_spec(toml).len() ==> line_quoted(
            #[trigger] lines_spec(toml)[i],
            before_last_spec(toml_dir, "Cargo.toml".spec_bytes()),
        )
}

/// The scan of quoted lines succeeds.
pub proof fn lemma_toml_lines_ok(
    paths: Seq<Seq<u8>>,
    base: Option<Seq<u8>>,
    lines: Seq<Seq<u8>>,
    k: int,
    st: TomlState,
)
    requires
        forall|i: int| 0 <= i < lines.len() ==> line_quoted(#[trigger] lines[i], base),
    ensures
        toml_lines(paths, base, lines, k, st) is Ok,
    decreases lines.len() - k,
{
    if 0 <= k < lines.len() {
        assert(line_quoted(lines[k], base));
        let s = toml_line(paths, base, st, lines[k]);
        assert(s is Ok);
        lemma_toml_lines_ok(paths, base, lines, k + 1, s->Ok_0);
    }
}

impl FileVector {
    /// Gives the pending name (or, for the main file, the pending path) to
    /// every file whose path is the pending path (see [`assign_libs`]).
    fn assign(&mut self, main: bool, name: &mut Vec<u8>, path: &mut Vec<u8>, Ghost(st): Ghost<TomlState>)
        requires
            old(self).wf(),
            st.name == old(name)@,
            st.path == old(path)@,
            with_libs(old(self).files(), old(self).files(), st.libs),
        ensures
            final(self).wf(),
            final(self).counters() == old(self).counters(),
            ({
                let out = assign_libs(file_paths(old(self).files()), st, 0, main);
                &&& with_libs(old(self).files(), final(self).files(), out.libs)
                &&& final(name)@ == out.name
                &&& final(path)@ == out.path
                &&& out.name_flag == st.name_flag
                &&& out.path_flag == st.path_flag
            }),
    {
        let ghost files0 = self.files();
        let ghost paths = file_paths(files0);
        let ghost mut cur = st;
        let mut k: usize = 0;
        while k < self.file_vec.len()
            invariant
                self.wf(),
                self.counters() == old(self).counters(),
                files0 == old(self).files(),
                paths == file_paths(files0),
                k <= files0.len(),
                cur.name == name@,
                cur.path == path@,
                cur.name_flag == st.name_flag,
                cur.path_flag == st.path_flag,
                with_libs(files0, self.files(), cur.libs),
                assign_libs(paths, st, 0, main) == assign_libs(paths, cur, k as int, main),
            decreases files0.len() - k,
        {
            assert(paths[k as int] == self.files()[k as int].path@);
            if bytes_eq(self.file_vec[k].path.as_slice(), path.as_slice()) {
                let ghost before = self.files();
                let lib = if main {
                    LibType::Main(copy_bytes(path))
                } else {
                    LibType::Name(copy_bytes(name))
                };
                self.file_vec[k].lib_name = lib;
                *path = Vec::new();
                *name = Vec::new();
                proof {
                    let nl = if main {
                        LibView::Main(cur.path)
                    } else {
                        LibView::Name(cur.name)
                    };
                    cur = TomlState { libs: cur.libs.update(k as int, nl), name: seq![], path: seq![], ..cur };
                    assert(name@ =~= seq![]);
                    assert(path@ =~= seq![]);
                    assert forall|i: int| 0 <= i < self.files().len() implies #[trigger] self.files()[i].wf() by {
                        assert(self.files()[i].code == before[i].code && self.files()[i].ast == before[i].ast);
                        assert(before[i].wf());
                    }
                    assert forall|i: int| 0 <= i < files0.len() implies {
                        &&& (#[trigger] self.files()[i]).path == files0[i].path
                        &&& self.files()[i].code == files0[i].code
                        &&& self.files()[i].ast == files0[i].ast
                        &&& self.files()[i].item_list == files0[i].item_list
                        &&& self.files()[i].lib_name@ == cur.libs[i]
                    } by {
                        assert(before[i].path == files0[i].path);
                    }
                }
            }
            k = k + 1;
        }
    }

    /// Reads the manifest text `toml` found at `toml_dir` and records which
    /// files are libraries and which is the main file (see
    /// [`read_toml_spec`]); only the files' kinds change. Every line must
    /// have the quoted value it needs (see [`manifest_quoted_exec`]).
    pub fn read_toml(&mut self, toml_dir: &[u8], toml: &[u8])
        requires
            old(self).wf(),
            manifest_quoted(toml_dir@, toml@),
        ensures
            final(self).wf(),
            final(self).counters() == old(self).counters(),
            read_toml_spec(old(self).files(), toml_dir@, toml@) matches Ok(st) && with_libs(
                old(self).files(),
                final(self).files(),
                st.libs,
            ),
    {
        let ghost files0 = self.files();
        let ghost paths = file_paths(files0);
        let toml_lines_v = lines(toml);
        let base = before_last(toml_dir, literal("Cargo.toml"));
        let ghost bv = before_last_spec(toml_dir@, "Cargo.toml".spec_bytes());
        let ghost lv = lines_spec(toml@);
        let quote = literal("\"");
        proof {
            reveal_strlit("\"");
            vstd::string::is_ascii_spec_bytes("\"");
            assert(vstd::string::is_ascii("\""));
        }
        let mut name_flag: i32 = 0;
        let mut path_flag: i32 = 0;
        let mut name: Vec<u8> = Vec::new();
        let mut path: Vec<u8> = Vec::new();
        let ghost mut st = TomlState { name_flag: 0, path_flag: 0, name: seq![], path: seq![], libs: file_libs(files0) };
        assert(name@ =~= seq![] && path@ =~= seq![]);
        assert(with_libs(files0, self.files(), st.libs));
        let mut li: usize = 0;
        while li < toml_lines_v.len()
            invariant
                self.wf(),
                self.counters() == old(self).counters(),
                files0 == old(self).files(),
                paths == file_paths(files0),
                bv == base.deep_view(),
                bv == before_last_spec(toml_dir@, "Cargo.toml".spec_bytes()),
                lv == toml_lines_v.deep_view(),
                lv == lines_spec(toml@),
                quote@ == "\"".spec_bytes(),
                quote@.len() > 0,
                li <= lv.len(),
                manifest_quoted(toml_dir@, toml@),
                st.name_flag == name_flag,
                st.path_flag == path_flag,
                st.name == name@,
                st.path == path@,
                with_libs(files0, self.files(), st.libs),
                read_toml_spec(files0, toml_dir@, toml@) == toml_lines(paths, bv, lv, li as int, st),
            decreases lv.len() - li,
        {
            let line = toml_lines_v[li].as_slice();
            assert(line@ == lv[li as int]);
            assert(line_quoted(lv[li as int], bv));
            if bytes_eq(line, literal("[[bin}}")) {
                name_flag = 3;
                path_flag = 3;
            }
            if bytes_eq(line, literal("[lib]")) {
                name_flag = 1;
                path_flag = 1;
            }
            let ghost st2 = TomlState { name_flag, path_flag, ..st };
            if starts_with(line, literal("name")) {
                if name_flag == 1 {
                    name_flag = 2;
                } else {
                    name_flag = 4;
                }
                let name_split_vec = split(line, quote);
                name = copy_bytes(&name_split_vec[1]);
            } else if starts_with(line, literal("path")) {
                if path_flag == 1 {
                    path_flag = 2;
                } else {
                    path_flag = 4;
                }
                path = Vec::new();
                match &base {
                    Some(base_dir) => {
                        let end_dir = split(line, quote);
                        path = concat(base_dir.as_slice(), end_dir[1].as_slice());
                    },
                    None => {},
                }
            }
            proof {
                st = TomlState { name_flag, path_flag, name: name@, path: path@, ..st };
                assert(path@ =~= path@);
            }
            if path_flag == 2 && name_flag == 2 {
                assert(file_paths(self.files()) =~= paths);
                self.assign(false, &mut name, &mut path, Ghost(st));
                proof {
                    st = TomlState { name_flag: 0, path_flag: 0, ..assign_libs(paths, st, 0, false) };
                }
                path_flag = 0;
                name_flag = 0;
            }
            if path_flag == 4 && name_flag == 4 {
                assert(file_paths(self.files()) =~= paths);
                self.assign(true, &mut name, &mut path, Ghost(st));
                proof {
                    st = TomlState { name_flag: 0, path_flag: 0, ..assign_libs(paths, st, 0, true) };
                }
                path_flag = 0;
                name_flag = 0;
            }
            li = li + 1;
        }
        proof {
            lemma_toml_lines_ok(paths, bv, lv, 0, TomlState { name_flag: 0, path_flag: 0, name: seq![], path: seq![], libs: file_libs(files0) });
        }
    }

    /// Whether every line of the manifest `toml` at `toml_dir` has the
    /// quoted value it needs.
    pub fn manifest_quoted_exec(toml_dir: &[u8], toml: &[u8]) -> (res: bool)
        ensures
            res == manifest_quoted(toml_dir@, toml@),
    {
        let toml_lines_v = lines(toml);
        let base = before_last(toml_dir, literal("Cargo.toml"));
        let ghost bv = before_last_spec(toml_dir@, "Cargo.toml".spec_bytes());
        let ghost lv = lines_spec(toml@);
        let quote = literal("\"");
        proof {
            reveal_strlit("\"");
            vstd::string::is_ascii_spec_bytes("\"");
            assert(vstd::string::is_ascii("\""));
        }
        let mut li: usize = 0;
        while li < toml_lines_v.len()
            invariant
                bv == base.deep_view(),
                bv == before_last_spec(toml_dir@, "Cargo.toml".spec_bytes()),
                lv == toml_lines_v.deep_view(),
                lv == lines_spec(toml@),
                quote@ == "\"".spec_bytes(),
                quote@.len() > 0,
                li <= lv.len(),
                forall|i: int| 0 <= i < li ==> line_quoted(#[trigger] lv[i], bv),
            decreases lv.len() - li,
        {
            let line = toml_lines_v[li].as_slice();
            assert(line@ == lv[li as int]);
            let quoted = split(line, quote).len() >= 2;
            if starts_with(line, literal("name")) {
                if !quoted {
                    return false;
                }
            } else if starts_with(line, literal("path")) && base.is_some() && !quoted {
                return false;
            }
            li = li + 1;
        }
        true
    }
}

/// The body of the last `function_item` whose name identifier reads
/// `target`, scanning the nodes from `x` on; `acc` is what the scan has
/// found so far. An identifier of `target` at the root fails with
/// `MissingNode` (its parent is looked up).
pub open spec fn find_block_from(t: SyntaxTree, code: Seq<u8>, target: Seq<u8>, x: int, acc: Option<int>) -> Result<Option<int>, AnalysisError>
    decreases t.len() - x,
{
    if x < 0 || x >= t.len() {
        Ok(acc)
    } else if t.text(code, x) == target && t.node(x).kind == "identifier".spec_bytes() {
        match t.parent(x) {
            None => Err(AnalysisError::MissingNode),
            Some(p) => if t.node(p as int).kind == "function_item".spec_bytes() {
                match t.field_child(x, "body".spec_bytes()) {
                    Some(b) => Ok(Some(b)),
                    None => find_block_from(t, code, target, x + 1, t.field_child(p as int, "body".spec_bytes())),
                }
            } else {
                find_block_from(t, code, target, x + 1, acc)
            },
        }
    } else {
        find_block_from(t, code, target, x + 1, acc)
    }
}

/// The body of the function `target` in a file (see [`find_block_from`]).
pub open spec fn find_block_spec(t: SyntaxTree, code: Seq<u8>, target: Seq<u8>) -> Result<Option<int>, AnalysisError> {
    find_block_from(t, code, target, 0, None)
}

/// The state of the walk: the counters and the acquisitions found.
pub struct Walk {
    pub counters: Counters,
    pub events: Seq<LockEventView>,
}

/// The walk with the symbol counter at `id`.
pub open spec fn with_id(w: Walk, id: i32) -> Walk {
    Walk { counters: Counters { symbol_id: id, ..w.counters }, ..w }
}

/// The symbol table of a block after its arguments from the `k`-th on are
/// appended, with the symbol counter.
pub open spec fn table_with_args(args: Seq<SymbolView>, k: int, table: Seq<SymbolView>, id: i32) -> Result<(Seq<SymbolView>, i32), AnalysisError>
    decreases args.len() - k,
{
    if k < 0 || k >= args.len() {
        Ok((table, id))
    } else if id > i32::MAX - 2 {
        Err(AnalysisError::CounterOverflow)
    } else {
        let (t2, id2) = append_spec(table, args[k].0, args[k].2, id);
        table_with_args(args, k + 1, t2, id2)
    }
}

/// The type of a variable initialised by `value` (the path of a call such
/// as `lib::Type::new`): the return type of the function after `lib::` in
/// each library file named `lib` from the `k`-th on, the last one found
/// winning; a slice past the end fails with `BadSlice`.
pub open spec fn type_from_files(files: Seq<File>, k: int, lib: Seq<u8>, value: Seq<u8>, acc: Seq<u8>) -> Result<Seq<u8>, AnalysisError>
    decreases files.len() - k,
{
    if k < 0 || k >= files.len() {
        Ok(acc)
    } else if files[k].lib_name@ == LibView::Name(lib) {
        if !char_boundary(value, lib.len() + 2int) {
            Err(AnalysisError::BadSlice)
        } else {
            let key = value.subrange(lib.len() + 2int, value.len() as int);
            type_from_files(files, k + 1, lib, value, return_type_spec(items_view(files[k].item_list@), key))
        }
    } else {
        type_from_files(files, k + 1, lib, value, acc)
    }
}

/// Records the variable `var` with the type of `value` (see
/// [`type_from_files`]) in the table.
pub open spec fn record_symbol(files: Seq<File>, var: Seq<u8>, value: Seq<u8>, table: Seq<SymbolView>, id: i32) -> Result<(Seq<SymbolView>, i32), AnalysisError> {
    let ty = if contains_spec(value, "::".spec_bytes()) {
        type_from_files(files, 0, split_spec(value, "::".spec_bytes())[0], value, seq![])
    } else {
        Ok(seq![])
    };
    match ty {
        Err(e) => Err(e),
        Ok(ty) => if id > i32::MAX - 2 {
            Err(AnalysisError::CounterOverflow)
        } else {
            Ok(append_spec(table, var, ty, id))
        },
    }
}

/// A `let_declaration` node `x` of file `fi` updates the symbol table:
/// the variable (second child) gets the type of its value; a variable
/// bound to `Arc::new(&v)` or `Arc::clone(&v)` becomes another name for
/// `v`; a value `f()` is looked up as `f`.
pub open spec fn store_symbol_spec(files: Seq<File>, fi: int, x: int, table: Seq<SymbolView>, id: i32) -> Result<(Seq<SymbolView>, i32), AnalysisError> {
    let t = files[fi].ast;
    let code = files[fi].code@;
    match t.child(x, 1) {
        None => Err(AnalysisError::MissingNode),
        Some(var) => match t.field_child(x, "value".spec_bytes()) {
            None => Err(AnalysisError::MissingNode),
            Some(value) => {
                let var_str = t.text(code, var);
                let value_str = t.text(code, value);
                if is_prefix("Arc::new(".spec_bytes(), value_str) || is_prefix("Arc::clone(".spec_bytes(), value_str) {
                    match t.field_child(value, "arguments".spec_bytes()) {
                        None => Err(AnalysisError::MissingNode),
                        Some(args) => {
                            let inner: Result<int, AnalysisError> = match t.child(args, 1) {
                                Some(argu) => if t.node(argu).kind == "call_expression".spec_bytes() {
                                    match t.child(argu, 0) {
                                        Some(c) => Ok(c),
                                        None => Err(AnalysisError::MissingNode),
                                    }
                                } else {
                                    Ok(argu)
                                },
                                None => Ok(value),
                            };
                            match inner {
                                Err(e) => Err(e),
                                Ok(v) => {
                                    let vs = t.text(code, v);
                                    if is_prefix("&".spec_bytes(), vs) {
                                        Ok((append_arc_spec(table, var_str, vs.subrange(1, vs.len() as int)), id))
                                    } else {
                                        record_symbol(files, var_str, vs, table, id)
                                    }
                                },
                            }
                        },
                    }
                } else {
                    let vs = if is_suffix("()".spec_bytes(), value_str) {
                        value_str.subrange(0, value_str.len() - 2)
                    } else {
                        value_str
                    };
                    record_symbol(files, var_str, vs, table, id)
                }
            },
        },
    }
}

/// The lock name an acquisition reports: the call's text, with `self`
/// replaced by the name of the value the method was called on.
pub open spec fn lock_ident(key: Seq<u8>, upper: Seq<u8>) -> Seq<u8> {
    let idtf = replace_spec(key, ".".spec_bytes() + key, seq![]);
    if contains_spec(idtf, "self".spec_bytes()) {
        replace_spec(idtf, "self".spec_bytes(), upper)
    } else {
        idtf
    }
}

/// The walk of block `node` of file `fi`, run by thread `tid` in block
/// `block`; `upper` names the value that `self` stands for, `args` are the
/// symbols passed in. Fails with `TooDeep` when `depth` is used up.
pub open spec fn tb_spec(
    files: Seq<File>,
    fi: int,
    node: int,
    tid: i32,
    block: Seq<u8>,
    upper: Seq<u8>,
    args: Seq<SymbolView>,
    w: Walk,
    depth: nat,
) -> Result<Walk, AnalysisError>
    decreases depth, 0int, 0int, 0int,
{
    if depth == 0 {
        Err(AnalysisError::TooDeep)
    } else {
        match table_with_args(args, 0, seq![], w.counters.symbol_id) {
            Err(e) => Err(e),
            Ok((table, id)) => tb_loop(
                files,
                fi,
                node,
                node,
                tid,
                block,
                upper,
                table,
                0,
                with_id(w, id),
                (depth - 1) as nat,
            ),
        }
    }
}

/// The walk over the nodes of the block from `x` on (its subtree in
/// preorder): calls are handled by [`call_step`]; `let` declarations
/// update the symbol table.
pub open spec fn tb_loop(
    files: Seq<File>,
    fi: int,
    node: int,
    x: int,
    tid: i32,
    block: Seq<u8>,
    upper: Seq<u8>,
    table: Seq<SymbolView>,
    limit: usize,
    w: Walk,
    depth: nat,
) -> Result<Walk, AnalysisError>
    decreases depth, 4int, 0int, files[fi].ast.subtree_end(node) - x,
{
    let t = files[fi].ast;
    if x < 0 || x >= t.subtree_end(node) {
        Ok(w)
    } else if t.node(x).kind == "call_expression".spec_bytes() {
        match call_step(files, fi, x, tid, block, upper, table, limit, w, depth) {
            Err(e) => Err(e),
            Ok((w2, lim)) => tb_loop(files, fi, node, x + 1, tid, block, upper, table, lim, w2, depth),
        }
    } else if t.node(x).kind == "let_declaration".spec_bytes() {
        match store_symbol_spec(files, fi, x, table, w.counters.symbol_id) {
            Err(e) => Err(e),
            Ok((table2, id2)) => tb_loop(files, fi, node, x + 1, tid, block, upper, table2, limit, with_id(w, id2), depth),
        }
    } else {
        tb_loop(files, fi, node, x + 1, tid, block, upper, table, limit, w, depth)
    }
}

/// The `call_expression` node `x`, and the new `limit`: a spawned closure
/// is walked as a new thread in a new block, and calls inside it are then
/// skipped (`limit` is the end of the last spawned closure); otherwise
/// `m.f()` on a value of a library type searches that library for `f`, a
/// call to `lock` reports an acquisition, and `lib::f()` searches `lib`.
pub open spec fn call_step(
    files: Seq<File>,
    fi: int,
    x: int,
    tid: i32,
    block: Seq<u8>,
    upper: Seq<u8>,
    table: Seq<SymbolView>,
    limit: usize,
    w: Walk,
    depth: nat,
) -> Result<(Walk, usize), AnalysisError>
    decreases depth, 3int, 0int, 0int,
{
    let t = files[fi].ast;
    let code = files[fi].code@;
    match t.child(x, 0) {
        None => Err(AnalysisError::MissingNode),
        Some(cn) => {
            let key = t.text(code, cn);
            let spawned: Result<(Walk, usize), AnalysisError> = if key == "thread::spawn".spec_bytes() {
                match t.child(x, 1) {
                    None => Err(AnalysisError::MissingNode),
                    Some(tb) => if w.counters.tid_count == i32::MAX || w.counters.block_count == i32::MAX {
                        Err(AnalysisError::CounterOverflow)
                    } else {
                        let c1 = Counters {
                            tid_count: (w.counters.tid_count + 1) as i32,
                            block_count: (w.counters.block_count + 1) as i32,
                            ..w.counters
                        };
                        match tb_spec(
                            files,
                            fi,
                            tb,
                            c1.tid_count,
                            block_id(block, c1.block_count as nat),
                            upper,
                            table,
                            Walk { counters: c1, ..w },
                            depth,
                        ) {
                            Ok(w2) => Ok((w2, t.node(tb).end_byte)),
                            Err(e) => Err(e),
                        }
                    },
                }
            } else {
                Ok((w, limit))
            };
            match spawned {
                Err(e) => Err(e),
                Ok((w2, lim)) => if t.node(cn).end_byte < lim {
                    Ok((w2, lim))
                } else {
                    let dotted: Result<Walk, AnalysisError> = if contains_spec(key, ".".spec_bytes()) {
                        let sym = get_spec(table, split_spec(key, ".".spec_bytes())[0]);
                        let type_head = split_spec(sym.2, "::".spec_bytes())[0];
                        dot_files(files, 0, key, type_head, sym.1, sym.2, tid, block, upper, w2, depth)
                    } else {
                        Ok(w2)
                    };
                    match dotted {
                        Err(e) => Err(e),
                        Ok(w3) => {
                            let idtf = lock_ident(key, upper);
                            let w4 = if key == "lock".spec_bytes() {
                                Walk {
                                    events: w3.events.push(
                                        LockEventView {
                                            tid,
                                            lock_name: idtf,
                                            block,
                                            primitive: key,
                                            file_name: files[fi].path@,
                                            line_num: line_of(t.node(x).start_row),
                                        },
                                    ),
                                    ..w3
                                }
                            } else {
                                w3
                            };
                            if contains_spec(key, "::".spec_bytes()) {
                                let parts = split_spec(key, "::".spec_bytes());
                                match colon_files(
                                    files,
                                    0,
                                    parts[0],
                                    join_spec(parts.skip(1), "::".spec_bytes()),
                                    tid,
                                    block,
                                    idtf,
                                    w4,
                                    depth,
                                ) {
                                    Err(e) => Err(e),
                                    Ok(w5) => Ok((w5, lim)),
                                }
                            } else {
                                Ok((w4, lim))
                            }
                        },
                    }
                },
            }
        },
    }
}

/// The line (from 1) of a node starting at row `row` (from 0).
pub open spec fn line_of(row: usize) -> usize {
    if row < usize::MAX {
        (row + 1) as usize
    } else {
        row
    }
}

/// For a method call `key` on a value of type `ty` (id `sid`): every
/// library file from the `k`-th on named `type_head` (the first segment of
/// `ty`) is searched for the method, `self` standing for `ty`.
pub open spec fn dot_files(
    files: Seq<File>,
    k: int,
    key: Seq<u8>,
    type_head: Seq<u8>,
    sid: i32,
    ty: Seq<u8>,
    tid: i32,
    block: Seq<u8>,
    upper: Seq<u8>,
    w: Walk,
    depth: nat,
) -> Result<Walk, AnalysisError>
    decreases depth, 2int, 0int, files.len() - k,
{
    if k < 0 || k >= files.len() {
        Ok(w)
    } else if files[k].lib_name@ == LibView::Name(type_head) {
        if !char_boundary(key, type_head.len() + 1int) {
            Err(AnalysisError::BadSlice)
        } else {
            let sub = key.subrange(type_head.len() + 1int, key.len() as int);
            match search_spec(files, k, items_view(files[k].item_list@), sub, tid, block, upper, w, depth) {
                Err(e) => Err(e),
                Ok(w2) => dot_files(files, k + 1, key, type_head, sid, ty, tid, block, upper, w2, depth),
            }
        }
    } else {
        dot_files(files, k + 1, key, type_head, sid, ty, tid, block, upper, w, depth)
    }
}

/// For a path call `lib::rest`: every library file from the `k`-th on
/// named `lib` is searched for `rest`.
pub open spec fn colon_files(
    files: Seq<File>,
    k: int,
    lib: Seq<u8>,
    rest: Seq<u8>,
    tid: i32,
    block: Seq<u8>,
    idtf: Seq<u8>,
    w: Walk,
    depth: nat,
) -> Result<Walk, AnalysisError>
    decreases depth, 2int, 0int, files.len() - k,
{
    if k < 0 || k >= files.len() {
        Ok(w)
    } else if files[k].lib_name@ == LibView::Name(lib) {
        match search_spec(files, k, items_view(files[k].item_list@), rest, tid, block, idtf, w, depth) {
            Err(e) => Err(e),
            Ok(w2) => colon_files(files, k + 1, lib, rest, tid, block, idtf, w2, depth),
        }
    } else {
        colon_files(files, k + 1, lib, rest, tid, block, idtf, w, depth)
    }
}

/// The number of items in `list`, those in its `impl` blocks included.
pub open spec fn items_size(list: Seq<ItemView>) -> nat
    decreases list,
{
    if list.len() == 0 {
        0
    } else {
        items_size(list.drop_last()) + match list.last() {
            ItemView::ImplFunc(nl, _) => 1 + items_size(nl),
            _ => 1,
        }
    }
}

/// The items of an `impl` block of `list` are fewer than those of `list`.
pub proof fn lemma_items_size(list: Seq<ItemView>, k: int)
    requires
        0 <= k < list.len(),
    ensures
        list[k] matches ItemView::ImplFunc(nl, _) ==> items_size(nl) < items_size(list),
    decreases list.len(),
{
    if k < list.len() - 1 {
        lemma_items_size(list.drop_last(), k);
        assert(list.drop_last()[k] == list[k]);
    }
}

/// Whether the search of `list` for `key` reaches a function: a path
/// `T::rest` reaches one when an `impl` block of `T` holds one that `rest`
/// reaches; a name reaches a function of that name, in `list` or in its
/// `impl` blocks. The items from the `k`-th on are looked at.
pub open spec fn search_hits(list: Seq<ItemView>, k: int, key: Seq<u8>) -> bool
    decreases list, list.len() - k,
{
    if k < 0 || k >= list.len() {
        false
    } else {
        let here = if contains_spec(key, "::".spec_bytes()) {
            let parts = split_spec(key, "::".spec_bytes());
            match list[k] {
                ItemView::ImplFunc(nl, name) => parts[0] == name && search_hits(
                    nl,
                    0,
                    join_spec(parts.skip(1), "::".spec_bytes()),
                ),
                _ => false,
            }
        } else {
            match list[k] {
                ItemView::Func(name, _) => key == name,
                ItemView::ImplFunc(nl, _) => search_hits(nl, 0, key),
                _ => false,
            }
        };
        here || search_hits(list, k + 1, key)
    }
}

/// The search of the items `list` of file `fi` for `key`: a path `T::rest`
/// goes into the `impl` blocks of `T`; a name walks the body of every
/// function of that name (in a new block) and searches every `impl` block.
/// The search ends by the structure of the items; only walking a body
/// spends `depth`.
pub open spec fn search_spec(
    files: Seq<File>,
    fi: int,
    list: Seq<ItemView>,
    key: Seq<u8>,
    tid: i32,
    block: Seq<u8>,
    idtf: Seq<u8>,
    w: Walk,
    depth: nat,
) -> Result<Walk, AnalysisError>
    decreases depth, 1int, items_size(list), list.len() + 1,
{
    search_loop(files, fi, list, 0, key, tid, block, idtf, w, depth)
}

/// The search over the items of `list` from the `k`-th on.
pub open spec fn search_loop(
    files: Seq<File>,
    fi: int,
    list: Seq<ItemView>,
    k: int,
    key: Seq<u8>,
    tid: i32,
    block: Seq<u8>,
    idtf: Seq<u8>,
    w: Walk,
    depth: nat,
) -> Result<Walk, AnalysisError>
    decreases depth, 1int, items_size(list), list.len() - k,
{
    if k < 0 || k >= list.len() {
        Ok(w)
    } else if contains_spec(key, "::".spec_bytes()) {
        let parts = split_spec(key, "::".spec_bytes());
        match list[k] {
            ItemView::ImplFunc(nl, name) => if parts[0] == name {
                proof {
                    lemma_items_size(list, k);
                }
                match search_spec(files, fi, nl, join_spec(parts.skip(1), "::".spec_bytes()), tid, block, idtf, w, depth) {
                    Err(e) => Err(e),
                    Ok(w2) => search_loop(files, fi, list, k + 1, key, tid, block, idtf, w2, depth),
                }
            } else {
                search_loop(files, fi, list, k + 1, key, tid, block, idtf, w, depth)
            },
            _ => search_loop(files, fi, list, k + 1, key, tid, block, idtf, w, depth),
        }
    } else {
        match list[k] {
            ItemView::Func(name, _) => if key == name {
                match find_block_spec(files[fi].ast, files[fi].code@, key) {
                    Err(e) => Err(e),
                    Ok(None) => Err(AnalysisError::MissingBlock),
                    Ok(Some(b)) => if w.counters.block_count == i32::MAX {
                        Err(AnalysisError::CounterOverflow)
                    } else {
                        let c1 = Counters { block_count: (w.counters.block_count + 1) as i32, ..w.counters };
                        match tb_spec(
                            files,
                            fi,
                            b,
                            tid,
                            block_id(block, c1.block_count as nat),
                            idtf,
                            seq![],
                            Walk { counters: c1, ..w },
                            depth,
                        ) {
                            Err(e) => Err(e),
                            Ok(w2) => search_loop(files, fi, list, k + 1, key, tid, block, idtf, w2, depth),
                        }
                    },
                }
            } else {
                search_loop(files, fi, list, k + 1, key, tid, block, idtf, w, depth)
            },
            ItemView::ImplFunc(nl, _) => match {
                proof {
                    lemma_items_size(list, k);
                }
                search_spec(files, fi, nl, key, tid, block, idtf, w, depth)
            } {
                Err(e) => Err(e),
                Ok(w2) => search_loop(files, fi, list, k + 1, key, tid, block, idtf, w2, depth),
            },
            _ => search_loop(files, fi, list, k + 1, key, tid, block, idtf, w, depth),
        }
    }
}

/// A search that reaches no function changes nothing: it succeeds, with
/// the counters and acquisitions as they were.
pub proof fn lemma_search_no_hits(
    files: Seq<File>,
    fi: int,
    list: Seq<ItemView>,
    k: int,
    key: Seq<u8>,
    tid: i32,
    block: Seq<u8>,
    idtf: Seq<u8>,
    w: Walk,
    depth: nat,
)
    requires
        !search_hits(list, k, key),
    ensures
        search_loop(files, fi, list, k, key, tid, block, idtf, w, depth) == Ok::<Walk, AnalysisError>(w),
    decreases items_size(list), list.len() - k,
{
    if 0 <= k < list.len() {
        lemma_items_size(list, k);
        if contains_spec(key, "::".spec_bytes()) {
            let parts = split_spec(key, "::".spec_bytes());
            if let ItemView::ImplFunc(nl, name) = list[k] {
                if parts[0] == name {
                    let rest = join_spec(parts.skip(1), "::".spec_bytes());
                    lemma_search_no_hits(files, fi, nl, 0, rest, tid, block, idtf, w, depth);
                    assert(search_spec(files, fi, nl, rest, tid, block, idtf, w, depth) == search_loop(
                        files,
                        fi,
                        nl,
                        0,
                        rest,
                        tid,
                        block,
                        idtf,
                        w,
                        depth,
                    ));
                }
            }
        } else {
            if let ItemView::ImplFunc(nl, _) = list[k] {
                lemma_search_no_hits(files, fi, nl, 0, key, tid, block, idtf, w, depth);
                assert(search_spec(files, fi, nl, key, tid, block, idtf, w, depth) == search_loop(
                    files,
                    fi,
                    nl,
                    0,
                    key,
                    tid,
                    block,
                    idtf,
                    w,
                    depth,
                ));
            }
        }
        lemma_search_no_hits(files, fi, list, k + 1, key, tid, block, idtf, w, depth);
    }
}

impl FileVector {
    /// The body of the function `target` in the tree `tree` of `code` (see
    /// [`find_block_spec`]).
    pub fn find_block(&self, tree: &SyntaxTree, target: &[u8], code: &[u8]) -> (res: Result<Option<usize>, AnalysisError>)
        requires
            tree.wf(code@.len() as int),
        ensures
            match res {
                Ok(o) => find_block_spec(*tree, code@, target@) == Ok::<Option<int>, AnalysisError>(
                    crate::items::opt_int(o),
                ),
                Err(e) => find_block_spec(*tree, code@, target@) == Err::<Option<int>, AnalysisError>(e),
            },
    {
        let n = tree.nodes.len();
        let mut target_block: Option<usize> = None;
        let mut x: usize = 0;
        while x < n
            invariant
                tree.wf(code@.len() as int),
                n == tree.len(),
                x <= n,
                target_block matches Some(b) ==> b < n,
                find_block_spec(*tree, code@, target@) == find_block_from(
                    *tree,
                    code@,
                    target@,
                    x as int,
                    crate::items::opt_int(target_block),
                ),
            decreases n - x,
        {
            let line = tree.text_of(code, x);
            if bytes_eq(line.as_slice(), target) && tree.kind_is(x, literal("identifier")) {
                let p = match tree.parent_of(x) {
                    Some(p) => p,
                    None => {
                        return Err(AnalysisError::MissingNode);
                    },
                };
                assert(tree.parent(x as int) matches Some(q) && q < x) by {
                    assert(x > 0 || tree.parent(0) is None);
                }
                if tree.kind_is(p, literal("function_item")) {
                    assert(x < tree.subtree_end(x as int) <= tree.len());
                    assert(p < tree.subtree_end(p as int) <= tree.len());
                    target_block = tree.field_child_of(x, literal("body"));
                    proof {
                        crate::items::lemma_field_child_in_tree(*tree, code@.len() as int, x as int, "body".spec_bytes(), tree.children(x as int).len() as int);
                    }
                    match target_block {
                        Some(_) => {
                            return Ok(target_block);
                        },
                        None => {
                            target_block = tree.field_child_of(p, literal("body"));
                            proof {
                                crate::items::lemma_field_child_in_tree(*tree, code@.len() as int, p as int, "body".spec_bytes(), tree.children(p as int).len() as int);
                            }
                        },
                    }
                }
            }
            x = x + 1;
        }
        Ok(target_block)
    }
}

impl FileVector {
    /// The type of a variable initialised by `value` (see
    /// [`type_from_files`]).
    fn type_from_files_exec(&self, lib: &[u8], value: &[u8]) -> (res: Result<Vec<u8>, AnalysisError>)
        ensures
            match type_from_files(self.files(), 0, lib@, value@, seq![]) {
                Ok(ty) => res matches Ok(v) && v@ == ty,
                Err(e) => res == Err::<Vec<u8>, AnalysisError>(e),
            },
    {
        let mut symbol_type: Vec<u8> = Vec::new();
        assert(symbol_type@ =~= seq![]);
        let mut k: usize = 0;
        while k < self.file_vec.len()
            invariant
                k <= self.files().len(),
                type_from_files(self.files(), 0, lib@, value@, seq![]) == type_from_files(
                    self.files(),
                    k as int,
                    lib@,
                    value@,
                    symbol_type@,
                ),
            decreases self.files().len() - k,
        {
            if let LibType::Name(extern_name) = &self.file_vec[k].lib_name {
                if bytes_eq(lib, extern_name.as_slice()) {
                    if lib.len() > usize::MAX - 2 {
                        assert(value@.len() == value.len());
                        return Err(AnalysisError::BadSlice);
                    }
                    let key = match suffix_from(value, lib.len() + 2) {
                        Some(v) => v,
                        None => {
                            return Err(AnalysisError::BadSlice);
                        },
                    };
                    symbol_type = find_return_type(&self.file_vec[k].item_list, key.as_slice());
                }
            }
            k = k + 1;
        }
        Ok(symbol_type)
    }

    /// Records the variable `var` with the type of `value` (see
    /// [`record_symbol`]).
    fn record_symbol_exec(&self, var: Vec<u8>, value: &[u8], table: &mut symbolTable, id: &mut i32) -> (res: Result<(), AnalysisError>)
        ensures
            match record_symbol(self.files(), var@, value@, old(table).symbols(), *old(id)) {
                Ok((t2, id2)) => res is Ok && final(table).symbols() == t2 && *final(id) == id2,
                Err(e) => res == Err::<(), AnalysisError>(e),
            },
    {
        let sep = literal("::");
        proof {
            reveal_strlit("::");
            vstd::string::is_ascii_spec_bytes("::");
            assert(vstd::string::is_ascii("::"));
        }
        let symbol_type = if contains(value, sep) {
            let split_v = split(value, sep);
            proof {
                crate::detector::lemma_split_nonempty(value@, sep@);
            }
            match self.type_from_files_exec(split_v[0].as_slice(), value) {
                Ok(t) => t,
                Err(e) => {
                    return Err(e);
                },
            }
        } else {
            let v: Vec<u8> = Vec::new();
            assert(v@ =~= seq![]);
            v
        };
        if *id > i32::MAX - 2 {
            return Err(AnalysisError::CounterOverflow);
        }
        table.append(var, symbol_type, id);
        Ok(())
    }

    /// Updates the symbol table for the `let_declaration` node `x` of file
    /// `fi` (see [`store_symbol_spec`]).
    fn store_symbol(&self, fi: usize, x: usize, table: &mut symbolTable, id: &mut i32) -> (res: Result<(), AnalysisError>)
        requires
            self.wf(),
            fi < self.files().len(),
            x < self.files()[fi as int].ast.len(),
        ensures
            match store_symbol_spec(self.files(), fi as int, x as int, old(table).symbols(), *old(id)) {
                Ok((t2, id2)) => res is Ok && final(table).symbols() == t2 && *final(id) == id2,
                Err(e) => res == Err::<(), AnalysisError>(e),
            },
    {
        let file = &self.file_vec[fi];
        let tree = &file.ast;
        let code = file.code.as_slice();
        assert(self.files()[fi as int].wf());
        assert(x < tree.subtree_end(x as int) <= tree.len());
        let var = match tree.child_of(x, 1) {
            Some(v) => v,
            None => {
                return Err(AnalysisError::MissingNode);
            },
        };
        proof {
            crate::items::lemma_child_in_tree(*tree, code@.len() as int, x as int, 1);
        }
        let value = match tree.field_child_of(x, literal("value")) {
            Some(v) => v,
            None => {
                return Err(AnalysisError::MissingNode);
            },
        };
        proof {
            crate::items::lemma_field_child_in_tree(*tree, code@.len() as int, x as int, "value".spec_bytes(), tree.children(x as int).len() as int);
        }
        let var_str = tree.text_of(code, var);
        let value_str = tree.text_of(code, value);
        if starts_with(value_str.as_slice(), literal("Arc::new(")) || starts_with(value_str.as_slice(), literal("Arc::clone(")) {
            assert(value < tree.subtree_end(value as int) <= tree.len());
            let args = match tree.field_child_of(value, literal("arguments")) {
                Some(a) => a,
                None => {
                    return Err(AnalysisError::MissingNode);
                },
            };
            proof {
                crate::items::lemma_field_child_in_tree(*tree, code@.len() as int, value as int, "arguments".spec_bytes(), tree.children(value as int).len() as int);
            }
            assert(args < tree.subtree_end(args as int) <= tree.len());
            let mut inner = value;
            match tree.child_of(args, 1) {
                Some(argu) => {
                    proof {
                        crate::items::lemma_child_in_tree(*tree, code@.len() as int, args as int, 1);
                    }
                    if tree.kind_is(argu, literal("call_expression")) {
                        assert(argu < tree.subtree_end(argu as int) <= tree.len());
                        inner = match tree.child_of(argu, 0) {
                            Some(c) => c,
                            None => {
                                return Err(AnalysisError::MissingNode);
                            },
                        };
                        proof {
                            crate::items::lemma_child_in_tree(*tree, code@.len() as int, argu as int, 0);
                        }
                    } else {
                        inner = argu;
                    }
                },
                None => {},
            }
            let vs = tree.text_of(code, inner);
            if starts_with(vs.as_slice(), literal("&")) {
                proof {
                    reveal_strlit("&");
                    vstd::string::is_ascii_spec_bytes("&");
                    assert(vstd::string::is_ascii("&"));
                }
                let target = copy_range(vs.as_slice(), 1, vs.len());
                table.appendArc(var_str, target);
                return Ok(());
            }
            self.record_symbol_exec(var_str, vs.as_slice(), table, id)
        } else {
            let vs = if ends_with(value_str.as_slice(), literal("()")) {
                proof {
                    reveal_strlit("()");
                    vstd::string::is_ascii_spec_bytes("()");
                    assert(vstd::string::is_ascii("()"));
                }
                copy_range(value_str.as_slice(), 0, value_str.len() - 2)
            } else {
                value_str
            };
            self.record_symbol_exec(var_str, vs.as_slice(), table, id)
        }
    }
}

/// The walk as it stands: the counters and the acquisitions found.
pub open spec fn walk_of(c: Counters, events: Seq<LockEvent>) -> Walk {
    Walk { counters: c, events: events_view(events) }
}

/// The lock name an acquisition reports (see [`lock_ident`]).
fn lock_ident_exec(key: &[u8], upper: &[u8]) -> (res: Vec<u8>)
    ensures
        res@ == lock_ident(key@, upper@),
{
    let dotted = concat(literal("."), key);
    proof {
        reveal_strlit(".");
        vstd::string::is_ascii_spec_bytes(".");
        assert(vstd::string::is_ascii("."));
        reveal_strlit("self");
        vstd::string::is_ascii_spec_bytes("self");
        assert(vstd::string::is_ascii("self"));
    }
    let empty: Vec<u8> = Vec::new();
    assert(empty@ =~= seq![]);
    let idtf = replace(key, dotted.as_slice(), empty.as_slice());
    if contains(idtf.as_slice(), literal("self")) {
        replace(idtf.as_slice(), literal("self"), upper)
    } else {
        idtf
    }
}

/// The line (from 1) of a node starting at row `row` (see [`line_of`]).
fn line_of_exec(row: usize) -> (res: usize)
    ensures
        res == line_of(row),
{
    if row < usize::MAX {
        row + 1
    } else {
        row
    }
}

impl FileVector {
    /// Walks block `node` of file `fi` (see [`tb_spec`]).
    fn traverse_block(
        &self,
        fi: usize,
        node: usize,
        tid: i32,
        block: Vec<u8>,
        upper_idtf: Vec<u8>,
        arguments: Vec<(Vec<u8>, i32, Vec<u8>)>,
        counters: &mut Counters,
        events: &mut Vec<LockEvent>,
        depth: usize,
    ) -> (res: Result<(), AnalysisError>)
        requires
            old(counters).block_count >= 0,
            self.wf(),
            fi < self.files().len(),
            node < self.files()[fi as int].ast.len(),
        ensures
            final(counters).block_count >= 0,
            match tb_spec(
                self.files(),
                fi as int,
                node as int,
                tid,
                block@,
                upper_idtf@,
                arguments.deep_view(),
                walk_of(*old(counters), old(events)@),
                depth as nat,
            ) {
                Ok(w) => res is Ok && walk_of(*final(counters), final(events)@) == w,
                Err(e) => res == Err::<(), AnalysisError>(e),
            },
            walk_extends(walk_of(*old(counters), old(events)@), walk_of(*final(counters), final(events)@), tid, block@),
            depth == 0 ==> res == Err::<(), AnalysisError>(AnalysisError::TooDeep) && *final(counters) == *old(
                counters,
            ) && final(events)@ == old(events)@,
        decreases depth, 0int, 0int,
    {
        let ghost files = self.files();
        let ghost w0 = walk_of(*counters, events@);
        proof {
            lemma_extends_refl(w0, tid, block@);
        }
        if depth == 0 {
            return Err(AnalysisError::TooDeep);
        }
        let d = depth - 1;
        let mut symbol_table = symbolTable::new();
        let ghost args = arguments.deep_view();
        let mut ai: usize = 0;
        while ai < arguments.len()
            invariant
                args == arguments.deep_view(),
                ai <= args.len(),
                table_with_args(args, 0, seq![], w0.counters.symbol_id) == table_with_args(
                    args,
                    ai as int,
                    symbol_table.symbols(),
                    counters.symbol_id,
                ),
                *counters == (Counters { symbol_id: counters.symbol_id, ..w0.counters }),
                events@ == old(events)@,
                w0 == walk_of(*old(counters), old(events)@),
                counters.block_count >= 0,
                depth >= 1,
                walk_extends(w0, walk_of(*counters, events@), tid, block@),
            decreases args.len() - ai,
        {
            if counters.symbol_id > i32::MAX - 2 {
                return Err(AnalysisError::CounterOverflow);
            }
            let name = copy_bytes(&arguments[ai].0);
            let ty = copy_bytes(&arguments[ai].2);
            assert(args[ai as int] == (arguments@[ai as int].0@, arguments@[ai as int].1, arguments@[ai as int].2@));
            symbol_table.append(name, ty, &mut counters.symbol_id);
            proof {
                lemma_extends_same(w0, walk_of(*counters, events@), tid, block@);
            }
            ai = ai + 1;
        }
        let file = &self.file_vec[fi];
        let tree = &file.ast;
        let code = file.code.as_slice();
        assert(files[fi as int].wf());
        assert(node < tree.subtree_end(node as int) <= tree.len());
        let end = tree.subtree_end_of(node);
        let mut limit: usize = 0;
        let mut x: usize = node;
        let ghost dn = d as nat;
        while x < end
            invariant
                self.wf(),
                files == self.files(),
                w0 == walk_of(*old(counters), old(events)@),
                counters.block_count >= 0,
                args == arguments.deep_view(),
                fi < files.len(),
                *tree == files[fi as int].ast,
                code@ == files[fi as int].code@,
                file.path == files[fi as int].path,
                tree.wf(code@.len() as int),
                node <= x <= end,
                end == tree.subtree_end(node as int),
                end <= tree.len(),
                dn == d,
                d + 1 == depth,
                walk_extends(w0, walk_of(*counters, events@), tid, block@),
                tb_spec(files, fi as int, node as int, tid, block@, upper_idtf@, args, w0, depth as nat)
                    == tb_loop(
                    files,
                    fi as int,
                    node as int,
                    x as int,
                    tid,
                    block@,
                    upper_idtf@,
                    symbol_table.symbols(),
                    limit,
                    walk_of(*counters, events@),
                    dn,
                ),
            decreases end - x,
        {
            assert(x < tree.subtree_end(x as int) <= tree.len());
            let ghost wb = walk_of(*counters, events@);
            if tree.kind_is(x, literal("call_expression")) {
                let r = self.walk_call(fi, x, tid, block.as_slice(), upper_idtf.as_slice(), &symbol_table, limit, counters, events, d);
                proof {
                    lemma_extends_trans(w0, wb, walk_of(*counters, events@), tid, block@);
                }
                match r {
                    Ok(l) => {
                        limit = l;
                    },
                    Err(e) => {
                        return Err(e);
                    },
                }
            } else if tree.kind_is(x, literal("let_declaration")) {
                let r = self.store_symbol(fi, x, &mut symbol_table, &mut counters.symbol_id);
                proof {
                    lemma_extends_same(wb, walk_of(*counters, events@), tid, block@);
                    lemma_extends_trans(w0, wb, walk_of(*counters, events@), tid, block@);
                }
                match r {
                    Ok(()) => {},
                    Err(e) => {
                        return Err(e);
                    },
                }
            }
            x = x + 1;
        }
        Ok(())
    }

    /// Handles the `call_expression` node `x` of file `fi` and returns the
    /// new limit (see [`call_step`]).
    fn walk_call(
        &self,
        fi: usize,
        x: usize,
        tid: i32,
        block: &[u8],
        upper_idtf: &[u8],
        symbol_table: &symbolTable,
        limit: usize,
        counters: &mut Counters,
        events: &mut Vec<LockEvent>,
        d: usize,
    ) -> (res: Result<usize, AnalysisError>)
        requires
            self.wf(),
            fi < self.files().len(),
            x < self.files()[fi as int].ast.len(),
            old(counters).block_count >= 0,
        ensures
            final(counters).block_count >= 0,
            match call_step(
                self.files(),
                fi as int,
                x as int,
                tid,
                block@,
                upper_idtf@,
                symbol_table.symbols(),
                limit,
                walk_of(*old(counters), old(events)@),
                d as nat,
            ) {
                Ok((w, lim)) => res == Ok::<usize, AnalysisError>(lim) && walk_of(*final(counters), final(events)@) == w,
                Err(e) => res == Err::<usize, AnalysisError>(e),
            },
            walk_extends(walk_of(*old(counters), old(events)@), walk_of(*final(counters), final(events)@), tid, block@),
        decreases d, 3int, 0int,
    {
        let ghost files = self.files();
        let ghost w0 = walk_of(*counters, events@);
        proof {
            lemma_extends_refl(w0, tid, block@);
        }
        let file = &self.file_vec[fi];
        let tree = &file.ast;
        let code = file.code.as_slice();
        assert(files[fi as int].wf());
        assert(x < tree.subtree_end(x as int) <= tree.len());
        let mut limit = limit;
        let call_node = match tree.child_of(x, 0) {
            Some(c) => c,
            None => {
                return Err(AnalysisError::MissingNode);
            },
        };
        proof {
            crate::items::lemma_child_in_tree(*tree, code@.len() as int, x as int, 0);
        }
        let key = tree.text_of(code, call_node);
        if bytes_eq(key.as_slice(), literal("thread::spawn")) {
            let t_block = match tree.child_of(x, 1) {
                Some(c) => c,
                None => {
                    return Err(AnalysisError::MissingNode);
                },
            };
            proof {
                crate::items::lemma_child_in_tree(*tree, code@.len() as int, x as int, 1);
            }
            if counters.tid_count == i32::MAX || counters.block_count == i32::MAX {
                return Err(AnalysisError::CounterOverflow);
            }
            limit = tree.nodes[t_block].end_byte;
            counters.tid_count = counters.tid_count + 1;
            let new_tid = counters.tid_count;
            counters.block_count = counters.block_count + 1;
            let new_bc = counters.block_count;
            let new_block = make_block_id(block, new_bc);
            let args_now = symbol_table.clone_symbols();
            let ghost w1 = walk_of(*counters, events@);
            let r = self.traverse_block(
                fi,
                t_block,
                new_tid,
                new_block,
                crate::text::copy_bytes_slice(upper_idtf),
                args_now,
                counters,
                events,
                d,
            );
            proof {
                lemma_extends_nested(w0, w1, walk_of(*counters, events@), tid, new_tid, block@, new_bc as nat);
            }
            match r {
                Ok(()) => {},
                Err(e) => {
                    return Err(e);
                },
            }
        }
        if tree.nodes[call_node].end_byte < limit {
        } else {
            if contains(key.as_slice(), literal(".")) {
                proof {
                    reveal_strlit(".");
                    vstd::string::is_ascii_spec_bytes(".");
                    assert(vstd::string::is_ascii("."));
                    reveal_strlit("::");
                    vstd::string::is_ascii_spec_bytes("::");
                    assert(vstd::string::is_ascii("::"));
                }
                let split_key = split(key.as_slice(), literal("."));
                proof {
                    crate::detector::lemma_split_nonempty(key@, ".".spec_bytes());
                }
                let sym = symbol_table.get(split_key[0].as_slice());
                let type_split = split(sym.2.as_slice(), literal("::"));
                proof {
                    crate::detector::lemma_split_nonempty(sym.2@, "::".spec_bytes());
                }
                let ghost wb = walk_of(*counters, events@);
                let r = self.dot_files_exec(
                    key.as_slice(),
                    type_split[0].as_slice(),
                    sym.1,
                    sym.2.as_slice(),
                    tid,
                    block,
                    upper_idtf,
                    counters,
                    events,
                    d,
                );
                proof {
                    lemma_extends_trans(w0, wb, walk_of(*counters, events@), tid, block@);
                }
                match r {
                    Ok(()) => {},
                    Err(e) => {
                        return Err(e);
                    },
                }
            }
            let idtf = lock_ident_exec(key.as_slice(), upper_idtf);
            if bytes_eq(key.as_slice(), literal("lock")) {
                let line = line_of_exec(tree.nodes[x].start_row);
                let ev = LockEvent {
                    tid,
                    lock_name: copy_bytes(&idtf),
                    block: crate::text::copy_bytes_slice(block),
                    primitive: copy_bytes(&key),
                    file_name: copy_bytes(&file.path),
                    line_num: line,
                };
                let ghost before = events@;
                let ghost wb = walk_of(*counters, events@);
                events.push(ev);
                assert(events_view(events@) =~= events_view(before).push(ev@));
                proof {
                    let wa = walk_of(*counters, events@);
                    assert(wa.events.subrange(0, wb.events.len() as int) =~= wb.events);
                    assert(walk_extends(wb, wa, tid, block@));
                    lemma_extends_trans(w0, wb, wa, tid, block@);
                }
            }
            if contains(key.as_slice(), literal("::")) {
                proof {
                    reveal_strlit("::");
                    vstd::string::is_ascii_spec_bytes("::");
                    assert(vstd::string::is_ascii("::"));
                }
                let parts = split(key.as_slice(), literal("::"));
                proof {
                    crate::detector::lemma_split_nonempty(key@, "::".spec_bytes());
                }
                let rest = join_from(&parts, 1, literal("::"));
                let ghost wb = walk_of(*counters, events@);
                let r = self.colon_files_exec(
                    parts[0].as_slice(),
                    rest.as_slice(),
                    tid,
                    block,
                    idtf.as_slice(),
                    counters,
                    events,
                    d,
                );
                proof {
                    lemma_extends_trans(w0, wb, walk_of(*counters, events@), tid, block@);
                }
                match r {
                    Ok(()) => {},
                    Err(e) => {
                        return Err(e);
                    },
                }
            }
        }
        Ok(limit)
    }

    /// Searches every library file named `type_head` for the method call
    /// `key` (see [`dot_files`]).
    fn dot_files_exec(
        &self,
        key: &[u8],
        type_head: &[u8],
        sid: i32,
        ty: &[u8],
        tid: i32,
        block: &[u8],
        upper: &[u8],
        counters: &mut Counters,
        events: &mut Vec<LockEvent>,
        depth: usize,
    ) -> (res: Result<(), AnalysisError>)
        requires
            old(counters).block_count >= 0,
            self.wf(),
        ensures
            final(counters).block_count >= 0,
            match dot_files(
                self.files(),
                0,
                key@,
                type_head@,
                sid,
                ty@,
                tid,
                block@,
                upper@,
                walk_of(*old(counters), old(events)@),
                depth as nat,
            ) {
                Ok(w) => res is Ok && walk_of(*final(counters), final(events)@) == w,
                Err(e) => res == Err::<(), AnalysisError>(e),
            },
            walk_extends(walk_of(*old(counters), old(events)@), walk_of(*final(counters), final(events)@), tid, block@),
        decreases depth, 2int, 0int,
    {
        let ghost files = self.files();
        let ghost w0 = walk_of(*counters, events@);
        proof {
            lemma_extends_refl(w0, tid, block@);
        }
        let mut k: usize = 0;
        while k < self.file_vec.len()
            invariant
                self.wf(),
                files == self.files(),
                w0 == walk_of(*old(counters), old(events)@),
                counters.block_count >= 0,
                k <= files.len(),
                walk_extends(w0, walk_of(*counters, events@), tid, block@),
                dot_files(files, 0, key@, type_head@, sid, ty@, tid, block@, upper@, w0, depth as nat)
                    == dot_files(
                    files,
                    k as int,
                    key@,
                    type_head@,
                    sid,
                    ty@,
                    tid,
                    block@,
                    upper@,
                    walk_of(*counters, events@),
                    depth as nat,
                ),
            decreases files.len() - k,
        {
            if let LibType::Name(extern_name) = &self.file_vec[k].lib_name {
                if bytes_eq(type_head, extern_name.as_slice()) {
                    if type_head.len() == usize::MAX {
                        assert(key@.len() == key.len());
                        return Err(AnalysisError::BadSlice);
                    }
                    let sub = match suffix_from(key, type_head.len() + 1) {
                        Some(v) => v,
                        None => {
                            return Err(AnalysisError::BadSlice);
                        },
                    };
                    let ghost wb = walk_of(*counters, events@);
                    let r = self.search(k, &self.file_vec[k].item_list, sub.as_slice(), tid, block, upper, counters, events, depth);
                    proof {
                        lemma_extends_trans(w0, wb, walk_of(*counters, events@), tid, block@);
                    }
                    match r {
                        Ok(()) => {},
                        Err(e) => {
                            return Err(e);
                        },
                    }
                }
            }
            k = k + 1;
        }
        Ok(())
    }

    /// Searches every library file named `lib` for `rest` (see
    /// [`colon_files`]).
    fn colon_files_exec(
        &self,
        lib: &[u8],
        rest: &[u8],
        tid: i32,
        block: &[u8],
        idtf: &[u8],
        counters: &mut Counters,
        events: &mut Vec<LockEvent>,
        depth: usize,
    ) -> (res: Result<(), AnalysisError>)
        requires
            old(counters).block_count >= 0,
            self.wf(),
        ensures
            final(counters).block_count >= 0,
            match colon_files(
                self.files(),
                0,
                lib@,
                rest@,
                tid,
                block@,
                idtf@,
                walk_of(*old(counters), old(events)@),
                depth as nat,
            ) {
                Ok(w) => res is Ok && walk_of(*final(counters), final(events)@) == w,
                Err(e) => res == Err::<(), AnalysisError>(e),
            },
            walk_extends(walk_of(*old(counters), old(events)@), walk_of(*final(counters), final(events)@), tid, block@),
        decreases depth, 2int, 0int,
    {
        let ghost files = self.files();
        let ghost w0 = walk_of(*counters, events@);
        proof {
            lemma_extends_refl(w0, tid, block@);
        }
        let mut k: usize = 0;
        while k < self.file_vec.len()
            invariant
                self.wf(),
                files == self.files(),
                w0 == walk_of(*old(counters), old(events)@),
                counters.block_count >= 0,
                k <= files.len(),
                walk_extends(w0, walk_of(*counters, events@), tid, block@),
                colon_files(files, 0, lib@, rest@, tid, block@, idtf@, w0, depth as nat) == colon_files(
                    files,
                    k as int,
                    lib@,
                    rest@,
                    tid,
                    block@,
                    idtf@,
                    walk_of(*counters, events@),
                    depth as nat,
                ),
            decreases files.len() - k,
        {
            if let LibType::Name(extern_name) = &self.file_vec[k].lib_name {
                if bytes_eq(lib, extern_name.as_slice()) {
                    let ghost wb = walk_of(*counters, events@);
                    let r = self.search(k, &self.file_vec[k].item_list, rest, tid, block, idtf, counters, events, depth);
                    proof {
                        lemma_extends_trans(w0, wb, walk_of(*counters, events@), tid, block@);
                    }
                    match r {
                        Ok(()) => {},
                        Err(e) => {
                            return Err(e);
                        },
                    }
                }
            }
            k = k + 1;
        }
        Ok(())
    }

    /// Searches the items `list` of file `fi` for `key` (see
    /// [`search_spec`]).
    fn search(
        &self,
        fi: usize,
        list: &Vec<ItemType>,
        key: &[u8],
        tid: i32,
        block_id: &[u8],
        idtf: &[u8],
        counters: &mut Counters,
        events: &mut Vec<LockEvent>,
        depth: usize,
    ) -> (res: Result<(), AnalysisError>)
        requires
            old(counters).block_count >= 0,
            self.wf(),
            fi < self.files().len(),
        ensures
            final(counters).block_count >= 0,
            match search_spec(
                self.files(),
                fi as int,
                items_view(list@),
                key@,
                tid,
                block_id@,
                idtf@,
                walk_of(*old(counters), old(events)@),
                depth as nat,
            ) {
                Ok(w) => res is Ok && walk_of(*final(counters), final(events)@) == w,
                Err(e) => res == Err::<(), AnalysisError>(e),
            },
            !search_hits(items_view(list@), 0, key@) ==> res is Ok && *final(counters) == *old(counters)
                && events_view(final(events)@) == events_view(old(events)@),
            walk_extends(walk_of(*old(counters), old(events)@), walk_of(*final(counters), final(events)@), tid, block_id@),
        decreases depth, 1int, items_size(items_view(list@)) as int,
    {
        let ghost files = self.files();
        let ghost w0 = walk_of(*counters, events@);
        let ghost lv = items_view(list@);
        let ghost dn = depth as nat;
        proof {
            lemma_extends_refl(w0, tid, block_id@);
            if !search_hits(lv, 0, key@) {
                lemma_search_no_hits(files, fi as int, lv, 0, key@, tid, block_id@, idtf@, w0, dn);
            }
            reveal_strlit("::");
            vstd::string::is_ascii_spec_bytes("::");
            assert(vstd::string::is_ascii("::"));
        }
        let is_path = contains(key, literal("::"));
        let parts = if is_path {
            split(key, literal("::"))
        } else {
            Vec::new()
        };
        proof {
            if is_path {
                crate::detector::lemma_split_nonempty(key@, "::".spec_bytes());
            }
        }
        let mut k: usize = 0;
        while k < list.len()
            invariant
                self.wf(),
                files == self.files(),
                w0 == walk_of(*old(counters), old(events)@),
                counters.block_count >= 0,
                fi < files.len(),
                lv == items_view(list@),
                k <= lv.len(),
                dn == depth,
                walk_extends(w0, walk_of(*counters, events@), tid, block_id@),
                !search_hits(lv, 0, key@) ==> search_spec(files, fi as int, lv, key@, tid, block_id@, idtf@, w0, dn)
                    == Ok::<Walk, AnalysisError>(w0),
                is_path == contains_spec(key@, "::".spec_bytes()),
                is_path ==> parts.deep_view() == split_spec(key@, "::".spec_bytes()) && parts@.len() >= 1,
                search_spec(files, fi as int, lv, key@, tid, block_id@, idtf@, w0, depth as nat) == search_loop(
                    files,
                    fi as int,
                    lv,
                    k as int,
                    key@,
                    tid,
                    block_id@,
                    idtf@,
                    walk_of(*counters, events@),
                    dn,
                ),
            decreases lv.len() - k,
        {
            assert(lv[k as int] == crate::items::item_view(list@[k as int]));
            if is_path {
                match &list[k] {
                    ItemType::ImplFunc(new_list, name) => {
                        proof {
                            crate::items::lemma_impl_view(*new_list, *name);
                        }
                        if bytes_eq(parts[0].as_slice(), name.as_slice()) {
                            let rest = join_from(&parts, 1, literal("::"));
                            proof {
                                lemma_items_size(lv, k as int);
                            }
                            let ghost wb = walk_of(*counters, events@);
                            let r = self.search(fi, new_list, rest.as_slice(), tid, block_id, idtf, counters, events, depth);
                            proof {
                                lemma_extends_trans(w0, wb, walk_of(*counters, events@), tid, block_id@);
                            }
                            match r {
                                Ok(()) => {},
                                Err(e) => {
                                    return Err(e);
                                },
                            }
                        }
                    },
                    _ => {},
                }
            } else {
                match &list[k] {
                    ItemType::Func(name, _) => {
                        if bytes_eq(key, name.as_slice()) {
                            let file = &self.file_vec[fi];
                            assert(files[fi as int].wf());
                            let found = self.find_block(&file.ast, key, file.code.as_slice());
                            match found {
                                Err(e) => {
                                    return Err(e);
                                },
                                Ok(None) => {
                                    return Err(AnalysisError::MissingBlock);
                                },
                                Ok(Some(block)) => {
                                    if counters.block_count == i32::MAX {
                                        return Err(AnalysisError::CounterOverflow);
                                    }
                                    proof {
                                        lemma_find_block_in_tree(file.ast, file.code@, key@, 0, None);
                                    }
                                    let ghost wb = walk_of(*counters, events@);
                                    counters.block_count = counters.block_count + 1;
                                    let bc = counters.block_count;
                                    let ghost w1 = walk_of(*counters, events@);
                                    let new_block = make_block_id(block_id, bc);
                                    let no_args: Vec<(Vec<u8>, i32, Vec<u8>)> = Vec::new();
                                    assert(no_args.deep_view() =~= seq![]);
                                    let r = self.traverse_block(
                                        fi,
                                        block,
                                        tid,
                                        new_block,
                                        crate::text::copy_bytes_slice(idtf),
                                        no_args,
                                        counters,
                                        events,
                                        depth,
                                    );
                                    proof {
                                        lemma_extends_nested(wb, w1, walk_of(*counters, events@), tid, tid, block_id@, bc as nat);
                                        lemma_extends_trans(w0, wb, walk_of(*counters, events@), tid, block_id@);
                                    }
                                    match r {
                                        Ok(()) => {},
                                        Err(e) => {
                                            return Err(e);
                                        },
                                    }
                                },
                            }
                        }
                    },
                    ItemType::ImplFunc(new_list, name) => {
                        proof {
                            crate::items::lemma_impl_view(*new_list, *name);
                        }
                        proof {
                            lemma_items_size(lv, k as int);
                        }
                        let ghost wb = walk_of(*counters, events@);
                        let r = self.search(fi, new_list, key, tid, block_id, idtf, counters, events, depth);
                        proof {
                            lemma_extends_trans(w0, wb, walk_of(*counters, events@), tid, block_id@);
                        }
                        match r {
                            Ok(()) => {},
                            Err(e) => {
                                return Err(e);
                            },
                        }
                    },
                    _ => {},
                }
            }
            k = k + 1;
        }
        Ok(())
    }
}

/// A body found by the scan lies in the tree.
pub proof fn lemma_find_block_in_tree(t: SyntaxTree, code: Seq<u8>, target: Seq<u8>, x: int, acc: Option<int>)
    requires
        t.wf(code.len() as int),
        0 <= x,
        acc matches Some(b) ==> 0 <= b < t.len(),
    ensures
        find_block_from(t, code, target, x, acc) matches Ok(Some(b)) ==> 0 <= b < t.len(),
    decreases t.len() - x,
{
    if x < t.len() {
        if t.text(code, x) == target && t.node(x).kind == "identifier".spec_bytes() {
            match t.parent(x) {
                None => {},
                Some(p) => {
                    assert(t.parent(x) matches Some(q) && q < x) by {
                        assert(x > 0 || t.parent(0) is None);
                    }
                    crate::items::lemma_field_child_in_tree(t, code.len() as int, x, "body".spec_bytes(), t.children(x).len() as int);
                    crate::items::lemma_field_child_in_tree(t, code.len() as int, p as int, "body".spec_bytes(), t.children(p as int).len() as int);
                    lemma_find_block_in_tree(t, code, target, x + 1, t.field_child(p as int, "body".spec_bytes()));
                    lemma_find_block_in_tree(t, code, target, x + 1, acc);
                },
            }
        } else {
            lemma_find_block_in_tree(t, code, target, x + 1, acc);
        }
    }
}

/// How many function bodies and spawned closures the walk may enter one
/// inside another before it gives up with `TooDeep`; searching the items
/// of a library spends none of it. The walk follows calls by recursion, so
/// a program whose calls never end (a library function that calls itself)
/// would otherwise exhaust the stack and abort the process; with the bound
/// it ends with an error instead. No walk of a program whose calls nest
/// fewer than this many bodies deep is affected.
pub const MAX_DEPTH: usize = 1000;

/// The walk from `main`: the body of `main` in the first (main) file,
/// walked by thread 0 in block `0`. Fails with `NoMainFile` when there is
/// no file and `NoMainBlock` when it has no `main`.
pub open spec fn start_spec(files: Seq<File>, c: Counters) -> Result<Walk, AnalysisError> {
    if files.len() == 0 {
        Err(AnalysisError::NoMainFile)
    } else {
        match find_block_spec(files[0].ast, files[0].code@, "main".spec_bytes()) {
            Err(e) => Err(e),
            Ok(None) => Err(AnalysisError::NoMainBlock),
            Ok(Some(b)) => tb_spec(
                files,
                0,
                b,
                0,
                "0".spec_bytes(),
                seq![],
                seq![],
                Walk { counters: c, events: seq![] },
                MAX_DEPTH as nat,
            ),
        }
    }
}

impl FileVector {
    /// Walks the program from `main` and returns the lock acquisitions it
    /// finds, in order (see [`start_spec`]).
    pub fn start(&mut self) -> (res: Result<Vec<LockEvent>, AnalysisError>)
        requires
            old(self).wf(),
        ensures
            final(self).wf(),
            final(self).files() == old(self).files(),
            match start_spec(old(self).files(), old(self).counters()) {
                Ok(w) => res matches Ok(ev) && events_view(ev@) == w.events && final(self).counters() == w.counters,
                Err(e) => res == Err::<Vec<LockEvent>, AnalysisError>(e),
            },
    {
        if self.file_vec.len() == 0 {
            return Err(AnalysisError::NoMainFile);
        }
        let main_file = &self.file_vec[0];
        assert(self.files()[0].wf());
        let found = self.find_block(&main_file.ast, literal("main"), main_file.code.as_slice());
        let block = match found {
            Err(e) => {
                return Err(e);
            },
            Ok(None) => {
                return Err(AnalysisError::NoMainBlock);
            },
            Ok(Some(b)) => b,
        };
        proof {
            lemma_find_block_in_tree(main_file.ast, main_file.code@, "main".spec_bytes(), 0, None);
        }
        let mut counters = self.counters;
        let mut events: Vec<LockEvent> = Vec::new();
        let root_block = crate::text::copy_bytes_slice(literal("0"));
        let upper: Vec<u8> = Vec::new();
        let args: Vec<(Vec<u8>, i32, Vec<u8>)> = Vec::new();
        assert(upper@ =~= seq![]);
        assert(args.deep_view() =~= seq![]);
        assert(events_view(events@) =~= seq![]);
        let r = self.traverse_block(0, block, 0, root_block, upper, args, &mut counters, &mut events, MAX_DEPTH);
        self.counters = counters;
        match r {
            Ok(()) => Ok(events),
            Err(e) => Err(e),
        }
    }
}

/// Block `b` is `block` or nested in it: its id extends `block`'s by
/// `-`-separated pieces.
pub open spec fn in_block(b: Seq<u8>, block: Seq<u8>) -> bool {
    b == block || is_prefix(block + dash(), b)
}

/// `w2` extends the walk `w` made by thread `tid` in block `block`: the
/// acquisitions found before stay first, the thread and block counters
/// never go down, and every new acquisition is made by `tid` or by a thread spawned
/// meanwhile (one numbered above the old counter and up to the new one),
/// in `block` or a block nested in it.
pub open spec fn walk_extends(w: Walk, w2: Walk, tid: i32, block: Seq<u8>) -> bool {
    &&& w.events.len() <= w2.events.len()
    &&& w2.events.subrange(0, w.events.len() as int) == w.events
    &&& w.counters.tid_count <= w2.counters.tid_count
    &&& w.counters.block_count <= w2.counters.block_count
    &&& forall|i: int|
        w.events.len() <= i < w2.events.len() ==> {
            &&& (#[trigger] w2.events[i]).tid == tid || w.counters.tid_count < w2.events[i].tid
                <= w2.counters.tid_count
            &&& in_block(w2.events[i].block, block)
        }
}

/// Being a prefix is transitive.
pub proof fn lemma_prefix_trans(a: Seq<u8>, b: Seq<u8>, c: Seq<u8>)
    requires
        is_prefix(a, b),
        is_prefix(b, c),
    ensures
        is_prefix(a, c),
{
    assert(c.subrange(0, a.len() as int) =~= b.subrange(0, a.len() as int));
}

/// A block nested in a child block of `block` is nested in `block`.
pub proof fn lemma_in_child_block(b: Seq<u8>, block: Seq<u8>, n: nat)
    requires
        in_block(b, block_id(block, n)),
    ensures
        in_block(b, block),
{
    let child = block_id(block, n);
    assert(is_prefix(block + dash(), child)) by {
        assert(child.subrange(0, (block + dash()).len() as int) =~= block + dash());
    }
    if b != child {
        assert(is_prefix(child, child + dash())) by {
            assert((child + dash()).subrange(0, child.len() as int) =~= child);
        }
        lemma_prefix_trans(block + dash(), child, child + dash());
        lemma_prefix_trans(block + dash(), child + dash(), b);
    }
}

/// A walk extends itself.
pub proof fn lemma_extends_refl(w: Walk, tid: i32, block: Seq<u8>)
    ensures
        walk_extends(w, w, tid, block),
{
    assert(w.events.subrange(0, w.events.len() as int) =~= w.events);
}

/// A walk with the same acquisitions and thread counter extends it.
pub proof fn lemma_extends_same(w: Walk, w2: Walk, tid: i32, block: Seq<u8>)
    requires
        w2.events == w.events,
        w2.counters.tid_count == w.counters.tid_count,
        w2.counters.block_count == w.counters.block_count,
    ensures
        walk_extends(w, w2, tid, block),
{
    lemma_extends_refl(w, tid, block);
}

/// Extending is transitive.
pub proof fn lemma_extends_trans(w: Walk, w1: Walk, w2: Walk, tid: i32, block: Seq<u8>)
    requires
        walk_extends(w, w1, tid, block),
        walk_extends(w1, w2, tid, block),
    ensures
        walk_extends(w, w2, tid, block),
{
    assert(w2.events.subrange(0, w.events.len() as int) =~= w1.events.subrange(0, w.events.len() as int)) by {
        assert forall|i: int| 0 <= i < w.events.len() implies w2.events[i] == w1.events[i] by {
            assert(w2.events.subrange(0, w1.events.len() as int)[i] == w1.events[i]);
        }
    }
    assert forall|i: int| w.events.len() <= i < w2.events.len() implies {
        &&& (#[trigger] w2.events[i]).tid == tid || w.counters.tid_count < w2.events[i].tid
            <= w2.counters.tid_count
        &&& in_block(w2.events[i].block, block)
    } by {
        if i < w1.events.len() {
            assert(w2.events[i] == w1.events[i]) by {
                assert(w2.events.subrange(0, w1.events.len() as int)[i] == w1.events[i]);
            }
            assert(w1.events[i].tid == tid || w.counters.tid_count < w1.events[i].tid <= w1.counters.tid_count);
            assert(in_block(w1.events[i].block, block));
        }
    }
}

/// A walk started from `w1` (the walk `w` with more blocks, or with a new
/// thread `tid2` numbered above `w`'s counter) in a child block of `block`
/// extends `w` as a walk of `tid` in `block`.
pub proof fn lemma_extends_nested(w: Walk, w1: Walk, w2: Walk, tid: i32, tid2: i32, block: Seq<u8>, n: nat)
    requires
        w1.events == w.events,
        w.counters.tid_count <= w1.counters.tid_count,
        w.counters.block_count <= w1.counters.block_count,
        tid2 == tid || w.counters.tid_count < tid2 <= w1.counters.tid_count,
        walk_extends(w1, w2, tid2, block_id(block, n)),
    ensures
        walk_extends(w, w2, tid, block),
{
    assert forall|i: int| w.events.len() <= i < w2.events.len() implies {
        &&& (#[trigger] w2.events[i]).tid == tid || w.counters.tid_count < w2.events[i].tid
            <= w2.counters.tid_count
        &&& in_block(w2.events[i].block, block)
    } by {
        lemma_in_child_block(w2.events[i].block, block, n);
    }
}

/// Walking a block extends the walk (see [`walk_extends`]).
pub proof fn lemma_tb_extends(
    files: Seq<File>,
    fi: int,
    node: int,
    tid: i32,
    block: Seq<u8>,
    upper: Seq<u8>,
    args: Seq<SymbolView>,
    w: Walk,
    depth: nat,
)
    ensures
        tb_spec(files, fi, node, tid, block, upper, args, w, depth) matches Ok(w2) ==> walk_extends(
            w,
            w2,
            tid,
            block,
        ),
    decreases depth, 0int, 0int, 0int,
{
    if depth > 0 {
        if let Ok((table, id)) = table_with_args(args, 0, seq![], w.counters.symbol_id) {
            lemma_loop_extends(files, fi, node, node, tid, block, upper, table, 0, with_id(w, id), (depth - 1) as nat);
        }
    }
}

/// The walk over a block's nodes extends the walk.
pub proof fn lemma_loop_extends(
    files: Seq<File>,
    fi: int,
    node: int,
    x: int,
    tid: i32,
    block: Seq<u8>,
    upper: Seq<u8>,
    table: Seq<SymbolView>,
    limit: usize,
    w: Walk,
    depth: nat,
)
    ensures
        tb_loop(files, fi, node, x, tid, block, upper, table, limit, w, depth) matches Ok(w2) ==> walk_extends(
            w,
            w2,
            tid,
            block,
        ),
    decreases depth, 4int, 0int, files[fi].ast.subtree_end(node) - x,
{
    let t = files[fi].ast;
    if x < 0 || x >= t.subtree_end(node) {
        lemma_extends_refl(w, tid, block);
    } else if t.node(x).kind == "call_expression".spec_bytes() {
        lemma_call_extends(files, fi, x, tid, block, upper, table, limit, w, depth);
        if let Ok((w2, lim)) = call_step(files, fi, x, tid, block, upper, table, limit, w, depth) {
            lemma_loop_extends(files, fi, node, x + 1, tid, block, upper, table, lim, w2, depth);
            if let Ok(w3) = tb_loop(files, fi, node, x + 1, tid, block, upper, table, lim, w2, depth) {
                lemma_extends_trans(w, w2, w3, tid, block);
            }
        }
    } else if t.node(x).kind == "let_declaration".spec_bytes() {
        if let Ok((table2, id2)) = store_symbol_spec(files, fi, x, table, w.counters.symbol_id) {
            lemma_loop_extends(files, fi, node, x + 1, tid, block, upper, table2, limit, with_id(w, id2), depth);
        }
    } else {
        lemma_loop_extends(files, fi, node, x + 1, tid, block, upper, table, limit, w, depth);
    }
}

/// Handling a call extends the walk.
pub proof fn lemma_call_extends(
    files: Seq<File>,
    fi: int,
    x: int,
    tid: i32,
    block: Seq<u8>,
    upper: Seq<u8>,
    table: Seq<SymbolView>,
    limit: usize,
    w: Walk,
    depth: nat,
)
    ensures
        call_step(files, fi, x, tid, block, upper, table, limit, w, depth) matches Ok((w2, _)) ==> walk_extends(
            w,
            w2,
            tid,
            block,
        ),
    decreases depth, 3int, 0int, 0int,
{
    let t = files[fi].ast;
    let code = files[fi].code@;
    if let Some(cn) = t.child(x, 0) {
        let key = t.text(code, cn);
        let spawned: Result<(Walk, usize), AnalysisError> = if key == "thread::spawn".spec_bytes() {
            match t.child(x, 1) {
                None => Err(AnalysisError::MissingNode),
                Some(tb) => if w.counters.tid_count == i32::MAX || w.counters.block_count == i32::MAX {
                    Err(AnalysisError::CounterOverflow)
                } else {
                    let c1 = Counters {
                        tid_count: (w.counters.tid_count + 1) as i32,
                        block_count: (w.counters.block_count + 1) as i32,
                        ..w.counters
                    };
                    let w1 = Walk { counters: c1, ..w };
                    lemma_tb_extends(
                        files,
                        fi,
                        tb,
                        c1.tid_count,
                        block_id(block, c1.block_count as nat),
                        upper,
                        table,
                        w1,
                        depth,
                    );
                    match tb_spec(
                        files,
                        fi,
                        tb,
                        c1.tid_count,
                        block_id(block, c1.block_count as nat),
                        upper,
                        table,
                        w1,
                        depth,
                    ) {
                        Ok(w2) => {
                            lemma_extends_nested(w, w1, w2, tid, c1.tid_count, block, c1.block_count as nat);
                            Ok((w2, t.node(tb).end_byte))
                        },
                        Err(e) => Err(e),
                    }
                },
            }
        } else {
            lemma_extends_refl(w, tid, block);
            Ok((w, limit))
        };
        if let Ok((w2, lim)) = spawned {
            if !(t.node(cn).end_byte < lim) {
                let dotted: Result<Walk, AnalysisError> = if contains_spec(key, ".".spec_bytes()) {
                    let sym = get_spec(table, split_spec(key, ".".spec_bytes())[0]);
                    let type_head = split_spec(sym.2, "::".spec_bytes())[0];
                    lemma_dot_extends(files, 0, key, type_head, sym.1, sym.2, tid, block, upper, w2, depth);
                    dot_files(files, 0, key, type_head, sym.1, sym.2, tid, block, upper, w2, depth)
                } else {
                    lemma_extends_refl(w2, tid, block);
                    Ok(w2)
                };
                if let Ok(w3) = dotted {
                    lemma_extends_trans(w, w2, w3, tid, block);
                    let idtf = lock_ident(key, upper);
                    let w4 = if key == "lock".spec_bytes() {
                        let ev = LockEventView {
                            tid,
                            lock_name: idtf,
                            block,
                            primitive: key,
                            file_name: files[fi].path@,
                            line_num: line_of(t.node(x).start_row),
                        };
                        let w4 = Walk { events: w3.events.push(ev), ..w3 };
                        assert(w4.events.subrange(0, w3.events.len() as int) =~= w3.events);
                        w4
                    } else {
                        lemma_extends_refl(w3, tid, block);
                        w3
                    };
                    lemma_extends_trans(w, w3, w4, tid, block);
                    if contains_spec(key, "::".spec_bytes()) {
                        let parts = split_spec(key, "::".spec_bytes());
                        let rest = join_spec(parts.skip(1), "::".spec_bytes());
                        lemma_colon_extends(files, 0, parts[0], rest, tid, block, idtf, w4, depth);
                        if let Ok(w5) = colon_files(files, 0, parts[0], rest, tid, block, idtf, w4, depth) {
                            lemma_extends_trans(w, w4, w5, tid, block);
                        }
                    }
                }
            }
        }
    }
}

/// Searching the libraries for a method extends the walk.
pub proof fn lemma_dot_extends(
    files: Seq<File>,
    k: int,
    key: Seq<u8>,
    type_head: Seq<u8>,
    sid: i32,
    ty: Seq<u8>,
    tid: i32,
    block: Seq<u8>,
    upper: Seq<u8>,
    w: Walk,
    depth: nat,
)
    ensures
        dot_files(files, k, key, type_head, sid, ty, tid, block, upper, w, depth) matches Ok(w2)
            ==> walk_extends(w, w2, tid, block),
    decreases depth, 2int, 0int, files.len() - k,
{
    if k < 0 || k >= files.len() {
        lemma_extends_refl(w, tid, block);
    } else if files[k].lib_name@ == LibView::Name(type_head) {
        if char_boundary(key, type_head.len() + 1int) {
            let sub = key.subrange(type_head.len() + 1int, key.len() as int);
            let list = items_view(files[k].item_list@);
            lemma_search_extends(files, k, list, sub, tid, block, upper, w, depth);
            if let Ok(w2) = search_spec(files, k, list, sub, tid, block, upper, w, depth) {
                lemma_dot_extends(files, k + 1, key, type_head, sid, ty, tid, block, upper, w2, depth);
                if let Ok(w3) = dot_files(files, k + 1, key, type_head, sid, ty, tid, block, upper, w2, depth) {
                    lemma_extends_trans(w, w2, w3, tid, block);
                }
            }
        }
    } else {
        lemma_dot_extends(files, k + 1, key, type_head, sid, ty, tid, block, upper, w, depth);
    }
}

/// Searching the libraries for a path call extends the walk.
pub proof fn lemma_colon_extends(
    files: Seq<File>,
    k: int,
    lib: Seq<u8>,
    rest: Seq<u8>,
    tid: i32,
    block: Seq<u8>,
    idtf: Seq<u8>,
    w: Walk,
    depth: nat,
)
    ensures
        colon_files(files, k, lib, rest, tid, block, idtf, w, depth) matches Ok(w2) ==> walk_extends(
            w,
            w2,
            tid,
            block,
        ),
    decreases depth, 2int, 0int, files.len() - k,
{
    if k < 0 || k >= files.len() {
        lemma_extends_refl(w, tid, block);
    } else if files[k].lib_name@ == LibView::Name(lib) {
        let list = items_view(files[k].item_list@);
        lemma_search_extends(files, k, list, rest, tid, block, idtf, w, depth);
        if let Ok(w2) = search_spec(files, k, list, rest, tid, block, idtf, w, depth) {
            lemma_colon_extends(files, k + 1, lib, rest, tid, block, idtf, w2, depth);
            if let Ok(w3) = colon_files(files, k + 1, lib, rest, tid, block, idtf, w2, depth) {
                lemma_extends_trans(w, w2, w3, tid, block);
            }
        }
    } else {
        lemma_colon_extends(files, k + 1, lib, rest, tid, block, idtf, w, depth);
    }
}

/// Searching a file's items extends the walk.
pub proof fn lemma_search_extends(
    files: Seq<File>,
    fi: int,
    list: Seq<ItemView>,
    key: Seq<u8>,
    tid: i32,
    block: Seq<u8>,
    idtf: Seq<u8>,
    w: Walk,
    depth: nat,
)
    ensures
        search_spec(files, fi, list, key, tid, block, idtf, w, depth) matches Ok(w2) ==> walk_extends(
            w,
            w2,
            tid,
            block,
        ),
    decreases depth, 1int, items_size(list), list.len() + 1,
{
    lemma_search_loop_extends(files, fi, list, 0, key, tid, block, idtf, w, depth);
}

/// Searching the items from the `k`-th on extends the walk.
pub proof fn lemma_search_loop_extends(
    files: Seq<File>,
    fi: int,
    list: Seq<ItemView>,
    k: int,
    key: Seq<u8>,
    tid: i32,
    block: Seq<u8>,
    idtf: Seq<u8>,
    w: Walk,
    depth: nat,
)
    ensures
        search_loop(files, fi, list, k, key, tid, block, idtf, w, depth) matches Ok(w2) ==> walk_extends(
            w,
            w2,
            tid,
            block,
        ),
    decreases depth, 1int, items_size(list), list.len() - k,
{
    if k < 0 || k >= list.len() {
        lemma_extends_refl(w, tid, block);
    } else {
        lemma_items_size(list, k);
        let mid: Result<Walk, AnalysisError> = if contains_spec(key, "::".spec_bytes()) {
            let parts = split_spec(key, "::".spec_bytes());
            match list[k] {
                ItemView::ImplFunc(nl, name) => if parts[0] == name {
                    let rest = join_spec(parts.skip(1), "::".spec_bytes());
                    lemma_search_extends(files, fi, nl, rest, tid, block, idtf, w, depth);
                    search_spec(files, fi, nl, rest, tid, block, idtf, w, depth)
                } else {
                    lemma_extends_refl(w, tid, block);
                    Ok(w)
                },
                _ => {
                    lemma_extends_refl(w, tid, block);
                    Ok(w)
                },
            }
        } else {
            match list[k] {
                ItemView::Func(name, _) => if key == name {
                    match find_block_spec(files[fi].ast, files[fi].code@, key) {
                        Err(e) => Err(e),
                        Ok(None) => Err(AnalysisError::MissingBlock),
                        Ok(Some(b)) => if w.counters.block_count == i32::MAX {
                            Err(AnalysisError::CounterOverflow)
                        } else {
                            let c1 = Counters { block_count: (w.counters.block_count + 1) as i32, ..w.counters };
                            let w1 = Walk { counters: c1, ..w };
                            let nb = block_id(block, c1.block_count as nat);
                            lemma_tb_extends(files, fi, b, tid, nb, idtf, seq![], w1, depth);
                            match tb_spec(files, fi, b, tid, nb, idtf, seq![], w1, depth) {
                                Ok(w2) => {
                                    lemma_extends_nested(w, w1, w2, tid, tid, block, c1.block_count as nat);
                                    Ok(w2)
                                },
                                Err(e) => Err(e),
                            }
                        },
                    }
                } else {
                    lemma_extends_refl(w, tid, block);
                    Ok(w)
                },
                ItemView::ImplFunc(nl, _) => {
                    lemma_search_extends(files, fi, nl, key, tid, block, idtf, w, depth);
                    search_spec(files, fi, nl, key, tid, block, idtf, w, depth)
                },
                _ => {
                    lemma_extends_refl(w, tid, block);
                    Ok(w)
                },
            }
        };
        if let Ok(w2) = mid {
            lemma_search_loop_extends(files, fi, list, k + 1, key, tid, block, idtf, w2, depth);
            if let Ok(w3) = search_loop(files, fi, list, k + 1, key, tid, block, idtf, w2, depth) {
                lemma_extends_trans(w, w2, w3, tid, block);
            }
        }
    }
}

/// The walk from `main` keeps its acquisitions in order, threads and
/// blocks well nested: every acquisition it reports is made in block `0`
/// or a block nested in it, by thread 0 or by a spawned thread, whose
/// number is fresh: above the thread counter the walk started with and up
/// to the one it ends with; the counter never goes down.
pub proof fn law_walk_events(files: Seq<File>, c: Counters)
    ensures
        start_spec(files, c) matches Ok(w) ==> walk_extends(
            Walk { counters: c, events: seq![] },
            w,
            0,
            "0".spec_bytes(),
        ),
{
    if files.len() > 0 {
        if let Ok(Some(b)) = find_block_spec(files[0].ast, files[0].code@, "main".spec_bytes()) {
            lemma_tb_extends(
                files,
                0,
                b,
                0,
                "0".spec_bytes(),
                seq![],
                seq![],
                Walk { counters: c, events: seq![] },
                MAX_DEPTH as nat,
            );
        }
    }
}

/// A search that reaches a function walks a body: when it succeeds, the
/// block counter has grown (each body walked opens a new block). A path
/// `T::f` reaches `f` through the `impl` blocks of `T`.
pub proof fn law_search_hit_walks_a_body(
    files: Seq<File>,
    fi: int,
    list: Seq<ItemView>,
    k: int,
    key: Seq<u8>,
    tid: i32,
    block: Seq<u8>,
    idtf: Seq<u8>,
    w: Walk,
    depth: nat,
)
    requires
        search_hits(list, k, key),
    ensures
        search_loop(files, fi, list, k, key, tid, block, idtf, w, depth) matches Ok(w2) ==> w2.counters.block_count
            > w.counters.block_count,
    decreases items_size(list), list.len() - k,
{
    lemma_items_size(list, k);
    let here = if contains_spec(key, "::".spec_bytes()) {
        let parts = split_spec(key, "::".spec_bytes());
        match list[k] {
            ItemView::ImplFunc(nl, name) => parts[0] == name && search_hits(
                nl,
                0,
                join_spec(parts.skip(1), "::".spec_bytes()),
            ),
            _ => false,
        }
    } else {
        match list[k] {
            ItemView::Func(name, _) => key == name,
            ItemView::ImplFunc(nl, _) => search_hits(nl, 0, key),
            _ => false,
        }
    };
    let mid: Result<Walk, AnalysisError> = if contains_spec(key, "::".spec_bytes()) {
        let parts = split_spec(key, "::".spec_bytes());
        match list[k] {
            ItemView::ImplFunc(nl, name) => if parts[0] == name {
                let rest = join_spec(parts.skip(1), "::".spec_bytes());
                lemma_search_extends(files, fi, nl, rest, tid, block, idtf, w, depth);
                if search_hits(nl, 0, rest) {
                    law_search_hit_walks_a_body(files, fi, nl, 0, rest, tid, block, idtf, w, depth);
                }
                search_spec(files, fi, nl, rest, tid, block, idtf, w, depth)
            } else {
                lemma_extends_refl(w, tid, block);
                Ok(w)
            },
            _ => {
                lemma_extends_refl(w, tid, block);
                Ok(w)
            },
        }
    } else {
        match list[k] {
            ItemView::Func(name, _) => if key == name {
                match find_block_spec(files[fi].ast, files[fi].code@, key) {
                    Err(e) => Err(e),
                    Ok(None) => Err(AnalysisError::MissingBlock),
                    Ok(Some(b)) => if w.counters.block_count == i32::MAX {
                        Err(AnalysisError::CounterOverflow)
                    } else {
                        let c1 = Counters { block_count: (w.counters.block_count + 1) as i32, ..w.counters };
                        let w1 = Walk { counters: c1, ..w };
                        let nb = block_id(block, c1.block_count as nat);
                        lemma_tb_extends(files, fi, b, tid, nb, idtf, seq![], w1, depth);
                        match tb_spec(files, fi, b, tid, nb, idtf, seq![], w1, depth) {
                            Ok(w2) => {
                                lemma_extends_nested(w, w1, w2, tid, tid, block, c1.block_count as nat);
                                Ok(w2)
                            },
                            Err(e) => Err(e),
                        }
                    },
                }
            } else {
                lemma_extends_refl(w, tid, block);
                Ok(w)
            },
            ItemView::ImplFunc(nl, _) => {
                lemma_search_extends(files, fi, nl, key, tid, block, idtf, w, depth);
                if search_hits(nl, 0, key) {
                    law_search_hit_walks_a_body(files, fi, nl, 0, key, tid, block, idtf, w, depth);
                }
                search_spec(files, fi, nl, key, tid, block, idtf, w, depth)
            },
            _ => {
                lemma_extends_refl(w, tid, block);
                Ok(w)
            },
        }
    };
    assert(search_loop(files, fi, list, k, key, tid, block, idtf, w, depth) == match mid {
        Err(e) => Err(e),
        Ok(w2) => search_loop(files, fi, list, k + 1, key, tid, block, idtf, w2, depth),
    });
    if let Ok(w2) = mid {
        assert(walk_extends(w, w2, tid, block));
        assert(here ==> w2.counters.block_count > w.counters.block_count);
        lemma_search_loop_extends(files, fi, list, k + 1, key, tid, block, idtf, w2, depth);
        if !here {
            law_search_hit_walks_a_body(files, fi, list, k + 1, key, tid, block, idtf, w2, depth);
        }
    }
}

/// A search of a file's items that reaches a function walks a body: when
/// it succeeds, the block counter has grown.
pub proof fn law_search_spec_hit_walks_a_body(
    files: Seq<File>,
    fi: int,
    list: Seq<ItemView>,
    key: Seq<u8>,
    tid: i32,
    block: Seq<u8>,
    idtf: Seq<u8>,
    w: Walk,
    depth: nat,
)
    requires
        search_hits(list, 0, key),
    ensures
        search_spec(files, fi, list, key, tid, block, idtf, w, depth) matches Ok(w2) ==> w2.counters.block_count
            > w.counters.block_count,
{
    law_search_hit_walks_a_body(files, fi, list, 0, key, tid, block, idtf, w, depth);
}

/// The bytes of the words a call's text is compared with.
proof fn lemma_call_words()
    ensures
        "lock".spec_bytes() == seq![108u8, 111u8, 99u8, 107u8],
        ".".spec_bytes() == seq![46u8],
        "::".spec_bytes() == seq![58u8, 58u8],
        "self".spec_bytes().len() == 4 && "self".spec_bytes()[0] == 115u8,
        "thread::spawn".spec_bytes().len() == 13,
{
    reveal_strlit("lock");
    reveal_strlit(".");
    reveal_strlit("::");
    reveal_strlit("self");
    reveal_strlit("thread::spawn");
    vstd::string::is_ascii_spec_bytes("lock");
    vstd::string::is_ascii_spec_bytes(".");
    vstd::string::is_ascii_spec_bytes("::");
    vstd::string::is_ascii_spec_bytes("self");
    vstd::string::is_ascii_spec_bytes("thread::spawn");
    assert(vstd::string::is_ascii("lock"));
    assert(vstd::string::is_ascii("."));
    assert(vstd::string::is_ascii("::"));
    assert(vstd::string::is_ascii("self"));
    assert(vstd::string::is_ascii("thread::spawn"));
    assert("lock".spec_bytes() =~= seq![108u8, 111u8, 99u8, 107u8]);
    assert(".".spec_bytes() =~= seq![46u8]);
    assert("::".spec_bytes() =~= seq![58u8, 58u8]);
}

/// A call of `lock()` that is not inside a spawned closure already walked
/// records one acquisition: by the walking thread, in the walking block,
/// of the lock named `lock`, with primitive `lock`, at the call's file and
/// line (rows count from 0, lines from 1); nothing else changes.
pub proof fn law_lock_call_records_acquisition(
    files: Seq<File>,
    fi: int,
    x: int,
    cn: int,
    tid: i32,
    block: Seq<u8>,
    upper: Seq<u8>,
    table: Seq<SymbolView>,
    limit: usize,
    w: Walk,
    depth: nat,
)
    requires
        files[fi].ast.child(x, 0) == Some(cn),
        files[fi].ast.text(files[fi].code@, cn) == "lock".spec_bytes(),
        files[fi].ast.node(cn).end_byte >= limit,
    ensures
        call_step(files, fi, x, tid, block, upper, table, limit, w, depth) == Ok::<(Walk, usize), AnalysisError>(
            (
                Walk {
                    events: w.events.push(
                        LockEventView {
                            tid,
                            lock_name: "lock".spec_bytes(),
                            block,
                            primitive: "lock".spec_bytes(),
                            file_name: files[fi].path@,
                            line_num: line_of(files[fi].ast.node(x).start_row),
                        },
                    ),
                    ..w
                },
                limit,
            ),
        ),
{
    lemma_call_words();
    let key = "lock".spec_bytes();
    assert(key != "thread::spawn".spec_bytes());
    assert(!contains_spec(key, ".".spec_bytes())) by {
        if contains_spec(key, ".".spec_bytes()) {
            let i = choose|i: int| occurs_at(key, ".".spec_bytes(), i);
            assert(key.subrange(i, i + 1)[0] == key[i]);
        }
    }
    assert(!contains_spec(key, "::".spec_bytes())) by {
        if contains_spec(key, "::".spec_bytes()) {
            let i = choose|i: int| occurs_at(key, "::".spec_bytes(), i);
            assert(key.subrange(i, i + 2)[0] == key[i]);
        }
    }
    let dotted = ".".spec_bytes() + key;
    assert(index_of(key, dotted, 0) == -1);
    assert(split_spec(key, dotted) == seq![key]) by {
        assert(key.subrange(0, key.len() as int) =~= key);
    }
    assert(join_spec(seq![key], seq![]) == key);
    assert(!contains_spec(key, "self".spec_bytes())) by {
        if contains_spec(key, "self".spec_bytes()) {
            let i = choose|i: int| occurs_at(key, "self".spec_bytes(), i);
            assert(key.subrange(i, i + 4)[0] == key[i]);
        }
    }
    assert(lock_ident(key, upper) == key);
}

} // verus!
