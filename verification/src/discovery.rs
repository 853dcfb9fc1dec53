//! Which files hold tests, and which shell runs them.

use vstd::multiset::Multiset;
use vstd::prelude::*;
use vstd::relations::{sorted_by, total_ordering};
use vstd::seq_lib::{lemma_multiset_commutative, lemma_sorted_unique};
use vstd::utf8::{decode_utf8, decode_utf8_encode_utf8, encode_utf8, encode_utf8_decode_utf8, encode_utf8_valid_utf8, valid_utf8};

use crate::mounts::paths;
use crate::order::{lemma_values_of_the_same, lex, Ordered, sort, sorted, stably_sorted, strict_total};
use crate::path::{component_less, components, extension, file_name, has_suffix_dot, joined, lemma_joined_name, lemma_path_order, path_less, same_path, UnixPath};
use crate::text::{after_last, chars_of, copy_range, ends_with, extend_str, has_prefix, has_suffix, lemma_after_last, rfind_symbol, rows, starts_with, str_equal, string_of};
use crate::utf8::{lemma_no_slash, lossy, strict_text};
use crate::words::{is_whitespace, lemma_a_word_is_itself, lemma_lines_are_read_one_by_one, lemma_white_space_parts_words, lines, lines_of, words, words_of};

verus! {

/// Shell-related file extensions that are always scanned for test functions.
pub open spec fn is_shell_extension(e: Seq<char>) -> bool {
    e == "test"@ || e == "sh"@ || e == "bash"@
}

/// The shells that scripts are run by.
pub open spec fn is_shell_name(s: Seq<char>) -> bool {
    s == "sh"@ || s == "bash"@ || s == "zsh"@ || s == "dash"@ || s == "ash"@ || s == "ksh"@
}

/// The interpreter that a shebang line names; `env` stands for the command after it.
pub open spec fn interpreter_of(line: Seq<char>) -> Option<Seq<char>> {
    if starts_with(line, "#!"@) {
        let ws = words(line.skip(2));
        if ws.len() == 0 {
            None
        } else if ends_with(ws[0], "/env"@) {
            if ws.len() > 1 {
                Some(ws[1])
            } else {
                None
            }
        } else {
            Some(ws[0])
        }
    } else {
        None
    }
}

/// The line names a shell as the interpreter, by whatever path.
pub open spec fn names_shell(line: Seq<char>) -> bool {
    interpreter_of(line) matches Some(s) && is_shell_name(after_last(s, '/'))
}

/// Extracts the interpreter token from a shebang line, handling the
/// `#!/usr/bin/env bash` form. Returns `None` when the line is not a shebang.
pub fn shebang_interpreter(line: &str) -> (r: Option<String>)
    ensures
        match r {
            Some(s) => interpreter_of(line@) == Some(s@),
            None => interpreter_of(line@) is None,
        },
{
    let v = chars_of(line);
    let mark = chars_of("#!");
    let env = chars_of("/env");
    proof {
        reveal_strlit("#!");
    }
    if !has_prefix(v.as_slice(), mark.as_slice()) {
        return None;
    }
    let total: usize = v.len();
    let rest = copy_range(v.as_slice(), 2, total);
    assert(rest@ =~= line@.skip(2));
    let ws = words_of(rest.as_slice());
    if ws.len() == 0 {
        return None;
    }
    assert(rows(ws@)[0] == ws@[0]@);
    if has_suffix(ws[0].as_slice(), env.as_slice()) {
        if ws.len() > 1 {
            assert(rows(ws@)[1] == ws@[1]@);
            Some(string_of(ws[1].as_slice()))
        } else {
            None
        }
    } else {
        Some(string_of(ws[0].as_slice()))
    }
}

/// Whether a shebang line names a shell.
pub fn is_shell_interpreter(shebang: &str) -> (r: bool)
    ensures
        r == names_shell(shebang@),
{
    let interpreter = match shebang_interpreter(shebang) {
        Some(s) => s,
        None => {
            return false;
        },
    };
    let v = chars_of(interpreter.as_str());
    let total: usize = v.len();
    let start: usize = match rfind_symbol(v.as_slice(), '/') {
        Some(i) => {
            proof {
                lemma_after_last(v@, '/', i as int);
            }
            i + 1
        },
        None => {
            proof {
                lemma_no_last(v@, '/');
            }
            0
        },
    };
    let base = copy_range(v.as_slice(), start, total);
    assert(base@ =~= after_last(v@, '/')) by {
        assert(base@ =~= v@.skip(start as int));
    }
    let name = string_of(base.as_slice());
    str_equal(name.as_str(), "sh") || str_equal(name.as_str(), "bash") || str_equal(
        name.as_str(),
        "zsh",
    ) || str_equal(name.as_str(), "dash") || str_equal(name.as_str(), "ash") || str_equal(
        name.as_str(),
        "ksh",
    )
}

proof fn lemma_no_last(s: Seq<char>, c: char)
    requires
        !s.contains(c),
    ensures
        after_last(s, c) == s,
    decreases s.len(),
{
    if s.len() > 0 {
        assert(s.contains(s.last()));
        let t = s.drop_last();
        assert forall|x: char| t.contains(x) implies s.contains(x) by {
            let i = choose|i: int| 0 <= i < t.len() && t[i] == x;
            assert(s[i] == x);
        }
        lemma_no_last(t, c);
        assert(after_last(s, c) =~= s);
    } else {
        assert(after_last(s, c) =~= s);
    }
}

/// The first line of a text, or nothing where there is none.
pub open spec fn first_of(s: Seq<char>) -> Seq<char> {
    let ls = lines(s);
    if ls.len() > 0 {
        ls[0]
    } else {
        Seq::empty()
    }
}

/// The first line of a file that begins with `head`. Bytes that are not UTF-8 hold no
/// line.
pub open spec fn first_line(head: Seq<u8>) -> Seq<char> {
    if valid_utf8(head) {
        first_of(decode_utf8(head))
    } else {
        Seq::empty()
    }
}

/// The first line of a file, from its first bytes.
pub fn read_first_line(head: &[u8]) -> (r: String)
    ensures
        r@ == first_line(head@),
{
    match strict_text(head) {
        Some(s) => {
            let v = chars_of(s.as_str());
            let ls = lines_of(v.as_slice());
            if ls.len() > 0 {
                assert(rows(ls@)[0] == ls@[0]@);
                string_of(ls[0].as_slice())
            } else {
                let none: Vec<char> = Vec::new();
                assert(none@ =~= Seq::<char>::empty());
                string_of(none.as_slice())
            }
        },
        None => {
            let none: Vec<char> = Vec::new();
            assert(none@ =~= Seq::<char>::empty());
            string_of(none.as_slice())
        },
    }
}

/// The name of a file or directory that is passed over: it begins with a dot.
pub open spec fn is_hidden(path: Seq<u8>) -> bool {
    file_name(path) matches Some(n) && valid_utf8(n) && starts_with(decode_utf8(n), "."@)
}

/// Whether a file or directory is passed over.
pub fn hidden(path: &UnixPath) -> (r: bool)
    ensures
        r == is_hidden(path@),
{
    let name = match path.file_name() {
        Some(n) => n,
        None => {
            return false;
        },
    };
    match strict_text(name.as_slice()) {
        Some(s) => {
            let v = chars_of(s.as_str());
            let dot = chars_of(".");
            has_prefix(v.as_slice(), dot.as_slice())
        },
        None => false,
    }
}

/// The file has a known shell extension.
pub open spec fn has_shell_extension(path: Seq<u8>) -> bool {
    extension(path) matches Some(e) && valid_utf8(e) && is_shell_extension(decode_utf8(e))
}

/// Whether a file has a known shell extension.
pub fn shell_extension(path: &UnixPath) -> (r: bool)
    ensures
        r == has_shell_extension(path@),
{
    match path.extension() {
        Some(e) => match strict_text(e.as_slice()) {
            Some(s) => str_equal(s.as_str(), "test") || str_equal(s.as_str(), "sh") || str_equal(
                s.as_str(),
                "bash",
            ),
            None => false,
        },
        None => false,
    }
}

/// A file is considered a shell script if it has a known shell extension or a
/// shell shebang on its first line; `head` is `None` where it could not be read.
pub open spec fn is_script(path: Seq<u8>, head: Option<Seq<u8>>) -> bool {
    has_shell_extension(path) || (head matches Some(h) && names_shell(first_line(h)))
}

/// The bytes, as contracts have them.
pub open spec fn bytes_of(head: Option<Vec<u8>>) -> Option<Seq<u8>> {
    match head {
        Some(h) => Some(h@),
        None => None,
    }
}

/// Whether a file is a shell script; `head` holds its first bytes, up to 256.
pub fn is_shell_script(path: &UnixPath, head: &Option<Vec<u8>>) -> (r: bool)
    ensures
        r == is_script(path@, bytes_of(*head)),
{
    if shell_extension(path) {
        return true;
    }
    match head {
        Some(h) => {
            let line = read_first_line(h.as_slice());
            is_shell_interpreter(line.as_str())
        },
        None => false,
    }
}

/// The shell that runs a script: the one its shebang line names, else `bash`.
pub open spec fn shell_of(head: Option<Seq<u8>>) -> Seq<char> {
    match head {
        Some(h) => if names_shell(first_line(h)) {
            interpreter_of(first_line(h))->0
        } else {
            "bash"@
        },
        None => "bash"@,
    }
}

/// Returns the shell interpreter to use for a script file, from its first bytes. Falls
/// back to "bash" if the shebang line is absent or unrecognized.
pub fn get_script_shell(head: &Option<Vec<u8>>) -> (r: String)
    ensures
        r@ == shell_of(bytes_of(*head)),
{
    match head {
        Some(h) => {
            let line = read_first_line(h.as_slice());
            if is_shell_interpreter(line.as_str()) {
                match shebang_interpreter(line.as_str()) {
                    Some(s) => s,
                    None => "bash".to_owned(),
                }
            } else {
                "bash".to_owned()
            }
        },
        None => "bash".to_owned(),
    }
}

/// What is found at a path.
#[derive(Debug)]
pub enum Node {
    /// A file that is no directory, with its first bytes where they were read.
    File(Option<Vec<u8>>),
    /// A directory, with its entries.
    Directory(Listing),
}

/// The entries of a directory; `None` where they could not be read.
#[derive(Debug)]
pub struct Listing(pub Option<Vec<Slot>>);

/// An entry of a directory, or the error that came in its place.
#[derive(Debug)]
pub enum Slot {
    Entry(Vec<u8>, Node),
    Failed(String),
}

/// What the search starts from.
#[derive(Debug)]
pub enum Start {
    File,
    Directory(Listing),
    /// Neither a file nor a directory.
    Missing,
}

/// Why no test files were found.
#[derive(Debug)]
pub enum DiscoveryError {
    /// There is nothing at the path.
    Missing(UnixPath),
    /// There are no scripts below the path.
    NoScripts(UnixPath),
    /// The directory could not be read.
    Unreadable(UnixPath),
    /// An entry of a directory could not be read.
    BadEntry(String),
}

pub enum DiscoveryErrorView {
    Missing(Seq<u8>),
    NoScripts(Seq<u8>),
    Unreadable(Seq<u8>),
    BadEntry(Seq<char>),
}

impl View for DiscoveryError {
    type V = DiscoveryErrorView;

    open spec fn view(&self) -> DiscoveryErrorView {
        match *self {
            DiscoveryError::Missing(p) => DiscoveryErrorView::Missing(p@),
            DiscoveryError::NoScripts(p) => DiscoveryErrorView::NoScripts(p@),
            DiscoveryError::Unreadable(p) => DiscoveryErrorView::Unreadable(p@),
            DiscoveryError::BadEntry(m) => DiscoveryErrorView::BadEntry(m@),
        }
    }
}

/// The error in words.
pub open spec fn discovery_message(e: DiscoveryErrorView) -> Seq<char> {
    match e {
        DiscoveryErrorView::Missing(p) => "path does not exist: "@ + lossy(p),
        DiscoveryErrorView::NoScripts(p) => "no script files found in "@ + lossy(p),
        DiscoveryErrorView::Unreadable(p) => "reading "@ + lossy(p),
        DiscoveryErrorView::BadEntry(m) => m,
    }
}

fn with_path(text: &str, p: &UnixPath) -> (r: String)
    ensures
        r@ == text@ + lossy(p@),
{
    let mut v = chars_of(text);
    let d = p.display();
    extend_str(&mut v, d.as_str());
    string_of(v.as_slice())
}

impl DiscoveryError {
    /// The error in words.
    pub fn message(&self) -> (r: String)
        ensures
            r@ == discovery_message(self@),
    {
        match self {
            DiscoveryError::Missing(p) => with_path("path does not exist: ", p),
            DiscoveryError::NoScripts(p) => with_path("no script files found in ", p),
            DiscoveryError::Unreadable(p) => with_path("reading ", p),
            DiscoveryError::BadEntry(m) => m.as_str().to_owned(),
        }
    }
}

/// The scripts below a directory, in the order of its entries, or the first error.
pub open spec fn scripts_in(dir: Seq<u8>, l: Listing) -> Result<Seq<Seq<u8>>, DiscoveryErrorView>
    decreases l, 0nat,
{
    match l.0 {
        None => Err(DiscoveryErrorView::Unreadable(dir)),
        Some(v) => scripts_among(dir, v, v@.len()),
    }
}

/// The scripts at and below the first `n` entries of a directory, or the first error.
/// What is hidden is passed over, a directory as much as a file.
pub open spec fn scripts_among(dir: Seq<u8>, v: Vec<Slot>, n: nat) -> Result<
    Seq<Seq<u8>>,
    DiscoveryErrorView,
>
    decreases v, n,
{
    if n == 0 || n > v@.len() {
        Ok(Seq::empty())
    } else {
        match scripts_among(dir, v, (n - 1) as nat) {
            Err(e) => Err(e),
            Ok(before) => match v[n - 1] {
                Slot::Failed(m) => Err(DiscoveryErrorView::BadEntry(m@)),
                Slot::Entry(name, node) => {
                    let path = joined(dir, name@);
                    if is_hidden(path) {
                        Ok(before)
                    } else {
                        match node {
                            Node::File(head) => if is_script(path, bytes_of(head)) {
                                Ok(before.push(path))
                            } else {
                                Ok(before)
                            },
                            Node::Directory(l) => match scripts_in(path, l) {
                                Ok(more) => Ok(before + more),
                                Err(e) => Err(e),
                            },
                        }
                    }
                },
            },
        }
    }
}

proof fn lemma_error_stays(dir: Seq<u8>, v: Vec<Slot>, k: nat, n: nat)
    requires
        k <= n <= v@.len(),
        scripts_among(dir, v, k) is Err,
    ensures
        scripts_among(dir, v, n) == scripts_among(dir, v, k),
    decreases n - k,
{
    if k < n {
        lemma_error_stays(dir, v, k, (n - 1) as nat);
    }
}

/// What a search came to.
pub open spec fn collected(
    before: Seq<Seq<u8>>,
    r: Result<(), DiscoveryError>,
    files: Seq<UnixPath>,
    found: Result<Seq<Seq<u8>>, DiscoveryErrorView>,
) -> bool {
    match found {
        Ok(more) => r is Ok && paths(files) == before + more,
        Err(e) => r matches Err(x) && x@ == e,
    }
}

fn collect_script_files(dir: &UnixPath, listing: &Listing, files: &mut Vec<UnixPath>) -> (r: Result<
    (),
    DiscoveryError,
>)
    ensures
        collected(paths(old(files)@), r, final(files)@, scripts_in(dir@, *listing)),
    decreases *listing, 0nat,
{
    let v = match &listing.0 {
        Some(v) => v,
        None => {
            return Err(DiscoveryError::Unreadable(dir.clone()));
        },
    };
    collect_entries(dir, v, files)
}

fn collect_entries(dir: &UnixPath, v: &Vec<Slot>, files: &mut Vec<UnixPath>) -> (r: Result<
    (),
    DiscoveryError,
>)
    ensures
        collected(paths(old(files)@), r, final(files)@, scripts_among(dir@, *v, v@.len())),
    decreases *v,
{
    let ghost before = paths(files@);
    let mut i: usize = 0;
    assert(before + Seq::empty() =~= before);
    while i < v.len()
        invariant
            i <= v@.len(),
            collected(before, Ok::<(), DiscoveryError>(()), files@, scripts_among(dir@, *v, i as nat)),
        decreases v@.len() - i,
    {
        let ghost now = files@;
        let ghost more = scripts_among(dir@, *v, i as nat)->Ok_0;
        assert(decreases_to!(*v => v[i as int]));
        match &v[i] {
            Slot::Failed(m) => {
                proof {
                    lemma_error_stays(dir@, *v, (i + 1) as nat, v@.len());
                }
                return Err(DiscoveryError::BadEntry(m.as_str().to_owned()));
            },
            Slot::Entry(name, node) => {
                let rel = UnixPath { bytes: copy_range(name.as_slice(), 0, name.len()) };
                assert(rel@ =~= name@);
                let path = dir.join_path(&rel);
                if !hidden(&path) {
                    match node {
                        Node::Directory(l) => match collect_script_files(&path, l, files) {
                            Ok(()) => {
                                proof {
                                    let sub = scripts_in(path@, *l)->Ok_0;
                                    assert(before + more + sub =~= before + (more + sub));
                                }
                            },
                            Err(e) => {
                                proof {
                                    lemma_error_stays(dir@, *v, (i + 1) as nat, v@.len());
                                }
                                return Err(e);
                            },
                        },
                        Node::File(head) => {
                            if is_shell_script(&path, head) {
                                let ghost p = path@;
                                files.push(path);
                                assert(paths(files@) =~= paths(now).push(p));
                                assert(paths(files@) =~= before + more.push(p));
                            }
                        },
                    }
                }
            },
        }
        i = i + 1;
    }
    Ok(())
}

/// The outcome of a search: the file itself; or the scripts below the directory, in the
/// order of paths, where there is any; or the error.
pub open spec fn discovery_outcome(
    path: Seq<u8>,
    start: Start,
    r: Result<Vec<UnixPath>, DiscoveryError>,
) -> bool {
    match start {
        Start::File => r matches Ok(v) && paths(v@) == seq![path],
        Start::Directory(l) => match scripts_in(path, l) {
            Err(e) => r matches Err(x) && x@ == e,
            Ok(found) => if found.len() == 0 {
                r matches Err(x) && x@ == DiscoveryErrorView::NoScripts(path)
            } else {
                r matches Ok(v) && sorted_from(found, v@)
            },
        },
        Start::Missing => r matches Err(x) && x@ == DiscoveryErrorView::Missing(path),
    }
}

/// The paths in order, those that count as the same in the order in which they came.
pub open spec fn sorted_from(found: Seq<Seq<u8>>, out: Seq<UnixPath>) -> bool {
    exists|list: Seq<UnixPath>| paths(list) == found && #[trigger] stably_sorted(list, out)
}

/// The test files at a path, from what is found there.
pub fn discover_test_files(path: &UnixPath, start: &Start) -> (r: Result<Vec<UnixPath>, DiscoveryError>)
    ensures
        discovery_outcome(path@, *start, r),
{
    match start {
        Start::File => {
            let mut v: Vec<UnixPath> = Vec::new();
            v.push(path.clone());
            assert(paths(v@) =~= seq![path@]);
            Ok(v)
        },
        Start::Directory(l) => {
            let mut files: Vec<UnixPath> = Vec::new();
            assert(paths(files@) =~= Seq::<Seq<u8>>::empty());
            match collect_script_files(path, l, &mut files) {
                Ok(()) => {},
                Err(e) => {
                    return Err(e);
                },
            }
            let ghost found = scripts_in(path@, *l)->Ok_0;
            assert(paths(files@) =~= found);
            if files.len() == 0 {
                assert(found.len() == 0);
                return Err(DiscoveryError::NoScripts(path.clone()));
            }
            assert(found.len() == files@.len());
            let ghost list = files@;
            let sorted = sort(files);
            assert(paths(list) == found && stably_sorted(list, sorted@));
            Ok(sorted)
        },
        Start::Missing => Err(DiscoveryError::Missing(path.clone())),
    }
}

/// The file to which a way through a directory leads, with its first bytes. A way names the
/// entry to take in each directory. What is hidden is on no way.
pub open spec fn file_at(dir: Seq<u8>, l: Listing, way: Seq<int>) -> Option<(Seq<u8>, Option<Seq<u8>>)>
    decreases way.len(),
{
    match l.0 {
        Some(v) => if way.len() > 0 && 0 <= way[0] < v@.len() {
            match v@[way[0]] {
                Slot::Entry(name, node) => {
                    let path = joined(dir, name@);
                    if is_hidden(path) {
                        None
                    } else {
                        match node {
                            Node::File(head) => if way.len() == 1 {
                                Some((path, bytes_of(head)))
                            } else {
                                None
                            },
                            Node::Directory(sub) => file_at(path, sub, way.drop_first()),
                        }
                    }
                },
                Slot::Failed(_) => None,
            }
        } else {
            None
        },
        None => None,
    }
}

/// The path of the file to which a way leads.
pub open spec fn path_at(dir: Seq<u8>, l: Listing, way: Seq<int>) -> Seq<u8> {
    (file_at(dir, l, way)->Some_0).0
}

/// A way leads to a script.
pub open spec fn leads_to_script(dir: Seq<u8>, l: Listing, way: Seq<int>) -> bool {
    file_at(dir, l, way) matches Some((path, head)) && is_script(path, head)
}

/// A way leads to something that cannot be read: a directory, or an entry of one.
pub open spec fn leads_to_error(dir: Seq<u8>, l: Listing, way: Seq<int>) -> bool
    decreases way.len(),
{
    match l.0 {
        Some(v) => way.len() > 0 && 0 <= way[0] < v@.len() && match v@[way[0]] {
            Slot::Entry(name, node) => !is_hidden(joined(dir, name@)) && match node {
                Node::File(_) => false,
                Node::Directory(sub) => leads_to_error(joined(dir, name@), sub, way.drop_first()),
            },
            Slot::Failed(_) => way.len() == 1,
        },
        None => way.len() == 0,
    }
}

/// What was found is at the end of these ways: they are all that lead to scripts through the
/// first `n` entries, each once.
pub open spec fn are_ways_to(
    dir: Seq<u8>,
    l: Listing,
    n: int,
    found: Seq<Seq<u8>>,
    ways: Seq<Seq<int>>,
) -> bool {
    &&& ways.len() == found.len()
    &&& forall|i: int|
        0 <= i < ways.len() ==> leads_to_script(dir, l, #[trigger] ways[i]) && ways[i][0] < n
            && path_at(dir, l, ways[i]) == found[i]
    &&& forall|i: int, j: int| 0 <= i < j < ways.len() ==> #[trigger] ways[i] != #[trigger] ways[j]
    &&& forall|way: Seq<int>|
        #[trigger] leads_to_script(dir, l, way) && way[0] < n ==> ways.contains(way)
}

proof fn lemma_way_begins(dir: Seq<u8>, l: Listing, way: Seq<int>)
    requires
        leads_to_script(dir, l, way),
    ensures
        way.len() > 0,
        l.0 is Some,
        0 <= way[0] < l.0->0@.len(),
{
}

proof fn lemma_ways(dir: Seq<u8>, l: Listing) -> (ways: Seq<Seq<int>>)
    requires
        scripts_in(dir, l) is Ok,
    ensures
        are_ways_to(dir, l, l.0->0@.len() as int, scripts_in(dir, l)->Ok_0, ways),
        forall|way: Seq<int>| !#[trigger] leads_to_error(dir, l, way),
    decreases l, 0nat,
{
    let v = l.0->0;
    let ways = lemma_ways_among(dir, l, v, v@.len());
    ways
}

proof fn lemma_ways_among(dir: Seq<u8>, l: Listing, v: Vec<Slot>, n: nat) -> (ways: Seq<Seq<int>>)
    requires
        l.0 == Some(v),
        n <= v@.len(),
        scripts_among(dir, v, n) is Ok,
    ensures
        are_ways_to(dir, l, n as int, scripts_among(dir, v, n)->Ok_0, ways),
        forall|way: Seq<int>| #[trigger] leads_to_error(dir, l, way) ==> way[0] >= n,
    decreases v, n,
{
    if n == 0 {
        assert forall|way: Seq<int>| #[trigger] leads_to_script(dir, l, way) && way[0] < 0 implies Seq::<
            Seq<int>,
        >::empty().contains(way) by {
            lemma_way_begins(dir, l, way);
        }
        Seq::empty()
    } else {
        let k = (n - 1) as nat;
        let at = k as int;
        let before = lemma_ways_among(dir, l, v, k);
        let old = scripts_among(dir, v, k)->Ok_0;
        let found = scripts_among(dir, v, n)->Ok_0;
        assert(decreases_to!(v => v@[at]));
        match v@[at] {
            Slot::Failed(_) => { before },
            Slot::Entry(name, node) => {
                let path = joined(dir, name@);
                if is_hidden(path) {
                    assert forall|way: Seq<int>|
                        #[trigger] leads_to_script(dir, l, way) && way[0] < n implies before.contains(
                        way,
                    ) by {
                        lemma_way_begins(dir, l, way);
                    }
                    before
                } else {
                    match node {
                        Node::File(head) => {
                            let one = seq![at];
                            if is_script(path, bytes_of(head)) {
                                let ways = before.push(one);
                                assert(file_at(dir, l, one) == Some((path, bytes_of(head))));
                                assert(leads_to_script(dir, l, one));
                                lemma_more_ways(dir, l, n, old, before, seq![path], seq![one]);
                                assert(old + seq![path] =~= found);
                                assert(before + seq![one] =~= ways);
                                assert forall|way: Seq<int>|
                                    #[trigger] leads_to_script(dir, l, way) && way[0] < n implies ways.contains(
                                    way,
                                ) by {
                                    lemma_way_begins(dir, l, way);
                                    if way[0] == at {
                                        assert(way =~= one);
                                        assert(ways[before.len() as int] == one);
                                    } else {
                                        let i = choose|i: int| 0 <= i < before.len() && before[i] == way;
                                        assert(ways[i] == way);
                                    }
                                }
                                ways
                            } else {
                                assert forall|way: Seq<int>|
                                    #[trigger] leads_to_script(dir, l, way) && way[0] < n implies before.contains(
                                    way,
                                ) by {
                                    lemma_way_begins(dir, l, way);
                                    if way[0] == at {
                                        assert(way =~= one);
                                    }
                                }
                                before
                            }
                        },
                        Node::Directory(sub) => {
                            let inner = lemma_ways(path, sub);
                            let more = scripts_in(path, sub)->Ok_0;
                            let longer = Seq::new(inner.len(), |i: int| seq![at] + inner[i]);
                            assert forall|i: int| 0 <= i < inner.len() implies file_at(
                                dir,
                                l,
                                #[trigger] longer[i],
                            ) == file_at(path, sub, inner[i]) by {
                                assert(longer[i].drop_first() =~= inner[i]);
                            }
                            assert forall|i: int, j: int| 0 <= i < j < longer.len() implies #[trigger] longer[i]
                                != #[trigger] longer[j] by {
                                assert(longer[i].drop_first() =~= inner[i]);
                                assert(longer[j].drop_first() =~= inner[j]);
                                assert(inner[i] != inner[j]);
                            }
                            assert forall|i: int| 0 <= i < longer.len() implies leads_to_script(
                                dir,
                                l,
                                #[trigger] longer[i],
                            ) && path_at(dir, l, longer[i]) == more[i] by {
                                assert(leads_to_script(path, sub, inner[i]));
                            }
                            lemma_more_ways(dir, l, n, old, before, more, longer);
                            let ways = before + longer;
                            assert forall|way: Seq<int>|
                                #[trigger] leads_to_script(dir, l, way) && way[0] < n implies ways.contains(
                                way,
                            ) by {
                                lemma_way_begins(dir, l, way);
                                if way[0] == at {
                                    let tail = way.drop_first();
                                    assert(leads_to_script(path, sub, tail));
                                    lemma_way_begins(path, sub, tail);
                                    let i = choose|i: int| 0 <= i < inner.len() && inner[i] == tail;
                                    assert(seq![at] + tail =~= way);
                                    assert(ways[before.len() + i] == longer[i]);
                                } else {
                                    let i = choose|i: int| 0 <= i < before.len() && before[i] == way;
                                    assert(ways[i] == way);
                                }
                            }
                            assert forall|way: Seq<int>| #[trigger] leads_to_error(dir, l, way) implies way[0]
                                >= n by {
                                if way[0] == at {
                                    assert(leads_to_error(path, sub, way.drop_first()));
                                }
                            }
                            ways
                        },
                    }
                }
            },
        }
    }
}

/// The ways through entry `n - 1` come after those through the entries before it.
proof fn lemma_more_ways(
    dir: Seq<u8>,
    l: Listing,
    n: nat,
    found: Seq<Seq<u8>>,
    ways: Seq<Seq<int>>,
    more: Seq<Seq<u8>>,
    longer: Seq<Seq<int>>,
)
    requires
        n > 0,
        are_ways_to(dir, l, n - 1, found, ways),
        longer.len() == more.len(),
        forall|i: int|
            0 <= i < longer.len() ==> leads_to_script(dir, l, #[trigger] longer[i]) && longer[i][0] == n - 1
                && path_at(dir, l, longer[i]) == more[i],
        forall|i: int, j: int|
            0 <= i < j < longer.len() ==> #[trigger] longer[i] != #[trigger] longer[j],
    ensures
        ({
            let all = ways + longer;
            let there = found + more;
            &&& all.len() == there.len()
            &&& forall|i: int|
                0 <= i < all.len() ==> leads_to_script(dir, l, #[trigger] all[i]) && all[i][0] < n
                    && path_at(dir, l, all[i]) == there[i]
            &&& forall|i: int, j: int|
                0 <= i < j < all.len() ==> #[trigger] all[i] != #[trigger] all[j]
        }),
{
    let all = ways + longer;
    let there = found + more;
    let k = ways.len() as int;
    assert forall|i: int| 0 <= i < all.len() implies leads_to_script(dir, l, #[trigger] all[i]) && all[i][0]
        < n && path_at(dir, l, all[i]) == there[i] by {
        if i < k {
            assert(all[i] == ways[i]);
        } else {
            assert(all[i] == longer[i - k]);
        }
    }
    assert forall|i: int, j: int| 0 <= i < j < all.len() implies #[trigger] all[i] != #[trigger] all[j] by {
        if j < k {
            assert(all[i] == ways[i] && all[j] == ways[j]);
        } else if i >= k {
            assert(all[i] == longer[i - k] && all[j] == longer[j - k]);
        } else {
            assert(all[i] == ways[i] && all[j] == longer[j - k]);
        }
    }
}

/// What is found below a directory are the scripts to which a way leads, however deep, each
/// as often as ways lead to it; and nothing that cannot be read is on any way.
pub proof fn lemma_every_script_is_found(dir: Seq<u8>, l: Listing, p: Seq<u8>)
    requires
        scripts_in(dir, l) is Ok,
    ensures
        scripts_in(dir, l)->Ok_0.contains(p) <==> exists|way: Seq<int>|
            #[trigger] leads_to_script(dir, l, way) && path_at(dir, l, way) == p,
        exists|ways: Seq<Seq<int>>| #[trigger]
            are_ways_to(dir, l, l.0->0@.len() as int, scripts_in(dir, l)->Ok_0, ways),
        forall|way: Seq<int>| !#[trigger] leads_to_error(dir, l, way),
{
    let ways = lemma_ways(dir, l);
    let found = scripts_in(dir, l)->Ok_0;
    if found.contains(p) {
        let i = choose|i: int| 0 <= i < found.len() && found[i] == p;
        assert(leads_to_script(dir, l, ways[i]));
    }
    if exists|way: Seq<int>| #[trigger] leads_to_script(dir, l, way) && path_at(dir, l, way) == p {
        let way = choose|way: Seq<int>| #[trigger]
            leads_to_script(dir, l, way) && path_at(dir, l, way) == p;
        lemma_way_begins(dir, l, way);
        let i = choose|i: int| 0 <= i < ways.len() && ways[i] == way;
        assert(found[i] == p);
    }
}

/// A search fails only where a way leads to something that cannot be read.
pub proof fn lemma_errors_are_on_the_way(dir: Seq<u8>, l: Listing) -> (way: Seq<int>)
    requires
        scripts_in(dir, l) is Err,
    ensures
        leads_to_error(dir, l, way),
    decreases l, 0nat,
{
    match l.0 {
        None => Seq::empty(),
        Some(v) => lemma_errors_among(dir, l, v, v@.len()),
    }
}

proof fn lemma_errors_among(dir: Seq<u8>, l: Listing, v: Vec<Slot>, n: nat) -> (way: Seq<int>)
    requires
        l.0 == Some(v),
        n <= v@.len(),
        scripts_among(dir, v, n) is Err,
    ensures
        leads_to_error(dir, l, way),
    decreases v, n,
{
    let k = (n - 1) as nat;
    let at = k as int;
    if scripts_among(dir, v, k) is Err {
        lemma_errors_among(dir, l, v, k)
    } else {
        assert(decreases_to!(v => v@[at]));
        match v@[at] {
            Slot::Failed(_) => seq![at],
            Slot::Entry(name, node) => {
                match node {
                    Node::File(_) => seq![at],
                    Node::Directory(sub) => {
                        let rest = lemma_errors_on_the_way_below(joined(dir, name@), sub);
                        let way = seq![at] + rest;
                        assert(way.drop_first() =~= rest);
                        way
                    },
                }
            },
        }
    }
}

proof fn lemma_errors_on_the_way_below(dir: Seq<u8>, l: Listing) -> (way: Seq<int>)
    requires
        scripts_in(dir, l) is Err,
    ensures
        leads_to_error(dir, l, way),
    decreases l, 1nat,
{
    lemma_errors_are_on_the_way(dir, l)
}

/// The scripts at and below an entry, with their number, in no order; nothing where a part of
/// them cannot be read.
pub open spec fn share(dir: Seq<u8>, slot: Slot) -> Option<Multiset<Seq<u8>>> {
    match slot {
        Slot::Failed(_) => None,
        Slot::Entry(name, node) => {
            let path = joined(dir, name@);
            if is_hidden(path) {
                Some(Multiset::empty())
            } else {
                match node {
                    Node::File(head) => if is_script(path, bytes_of(head)) {
                        Some(Multiset::singleton(path))
                    } else {
                        Some(Multiset::empty())
                    },
                    Node::Directory(sub) => bag(scripts_in(path, sub)),
                }
            }
        },
    }
}

/// What was found, in no order.
pub open spec fn bag(found: Result<Seq<Seq<u8>>, DiscoveryErrorView>) -> Option<Multiset<Seq<u8>>> {
    match found {
        Ok(s) => Some(s.to_multiset()),
        Err(_) => None,
    }
}

spec fn plus(a: Option<Multiset<Seq<u8>>>, b: Option<Multiset<Seq<u8>>>) -> Option<Multiset<Seq<u8>>> {
    if a is Some && b is Some {
        Some(a->0.add(b->0))
    } else {
        None
    }
}

spec fn total(shares: Seq<Option<Multiset<Seq<u8>>>>) -> Option<Multiset<Seq<u8>>>
    decreases shares.len(),
{
    if shares.len() == 0 {
        Some(Multiset::empty())
    } else {
        plus(total(shares.drop_last()), shares.last())
    }
}

proof fn lemma_total_remove(shares: Seq<Option<Multiset<Seq<u8>>>>, k: int)
    requires
        0 <= k < shares.len(),
    ensures
        total(shares) == plus(total(shares.remove(k)), shares[k]),
    decreases shares.len(),
{
    let last = shares.len() - 1;
    let front = shares.drop_last();
    if k == last {
        assert(shares.remove(k) =~= front);
    } else {
        lemma_total_remove(front, k);
        let less = shares.remove(k);
        assert(less.drop_last() =~= front.remove(k));
        assert(less.last() == shares.last());
        let rest = total(front.remove(k));
        let x = shares[k];
        let y = shares.last();
        if rest is Some && x is Some && y is Some {
            assert(rest->0.add(x->0).add(y->0) =~= rest->0.add(y->0).add(x->0));
        }
    }
}

proof fn lemma_total_same(a: Seq<Option<Multiset<Seq<u8>>>>, b: Seq<Option<Multiset<Seq<u8>>>>)
    requires
        a.to_multiset() == b.to_multiset(),
    ensures
        total(a) == total(b),
    decreases a.len(),
{
    a.to_multiset_ensures();
    b.to_multiset_ensures();
    if a.len() > 0 {
        let x = a.last();
        assert(a.contains(x));
        assert(a.to_multiset().count(x) > 0);
        assert(b.contains(x));
        let k = choose|k: int| 0 <= k < b.len() && b[k] == x;
        assert(a.remove(a.len() - 1) =~= a.drop_last());
        assert(a.drop_last().to_multiset() =~= a.to_multiset().remove(x));
        assert(b.remove(k).to_multiset() =~= b.to_multiset().remove(x));
        lemma_total_same(a.drop_last(), b.remove(k));
        lemma_total_remove(b, k);
    }
}

proof fn lemma_total_of_shares(dir: Seq<u8>, v: Vec<Slot>, n: nat)
    requires
        n <= v@.len(),
    ensures
        bag(scripts_among(dir, v, n)) == total(v@.take(n as int).map_values(|s: Slot| share(dir, s))),
    decreases n,
{
    let f = |s: Slot| share(dir, s);
    if n == 0 {
        Seq::<Seq<u8>>::empty().to_multiset_ensures();
        assert(Seq::<Seq<u8>>::empty().to_multiset() =~= Multiset::empty());
    } else {
        let k = (n - 1) as nat;
        lemma_total_of_shares(dir, v, k);
        let shares = v@.take(n as int).map_values(f);
        assert(shares.drop_last() =~= v@.take(k as int).map_values(f));
        assert(shares.last() == share(dir, v@[k as int]));
        if scripts_among(dir, v, k) is Ok {
            let before = scripts_among(dir, v, k)->Ok_0;
            assert(before.to_multiset().add(Multiset::empty()) =~= before.to_multiset());
            match v@[k as int] {
                Slot::Failed(_) => {},
                Slot::Entry(name, node) => {
                    let path = joined(dir, name@);
                    match node {
                        Node::File(head) => {
                            before.to_multiset_ensures();
                            assert(before.push(path).to_multiset() =~= before.to_multiset().add(
                                Multiset::singleton(path),
                            ));
                        },
                        Node::Directory(sub) => {
                            if scripts_in(path, sub) is Ok {
                                lemma_multiset_commutative(before, scripts_in(path, sub)->Ok_0);
                            }
                        },
                    }
                },
            }
        }
    }
}

/// The numbers below `n`, each once, in some order.
pub open spec fn permutes(at: Seq<int>, n: nat) -> bool {
    at.to_multiset() == Seq::new(n, |i: int| i).to_multiset()
}

/// Two directories hold the same, with the entries of each directory in them in any order.
pub open spec fn rearranged(a: Listing, b: Listing) -> bool
    decreases a, 0nat,
{
    match (a.0, b.0) {
        (Some(v), Some(w)) => v@.len() == w@.len() && exists|at: Seq<int>| #[trigger]
            permutes(at, v@.len()) && rearranged_by(v, w, at),
        (None, None) => true,
        _ => false,
    }
}

/// Entry `i` of the one is entry `at[i]` of the other.
pub open spec fn rearranged_by(v: Vec<Slot>, w: Vec<Slot>, at: Seq<int>) -> bool
    decreases v, 1nat,
{
    forall|i: int|
        0 <= i < v@.len() ==> match (#[trigger] v@[i], w@[at[i]]) {
            (Slot::Failed(_), Slot::Failed(_)) => true,
            (Slot::Entry(n, Node::File(h)), Slot::Entry(m, Node::File(g))) => n@ == m@ && bytes_of(h)
                == bytes_of(g),
            (Slot::Entry(n, Node::Directory(l)), Slot::Entry(m, Node::Directory(k))) => n@ == m@
                && rearranged(l, k),
            _ => false,
        }
}

proof fn lemma_rearranged(dir: Seq<u8>, a: Listing, b: Listing)
    requires
        rearranged(a, b),
    ensures
        bag(scripts_in(dir, a)) == bag(scripts_in(dir, b)),
    decreases a,
{
    if a.0 is Some {
        let v = a.0->0;
        let w = b.0->0;
        let n = v@.len();
        let at = choose|at: Seq<int>| #[trigger] permutes(at, n) && rearranged_by(v, w, at);
        let up = Seq::new(n, |i: int| i);
        at.to_multiset_ensures();
        up.to_multiset_ensures();
        assert(at.len() == n);
        let f = |s: Slot| share(dir, s);
        let g = |i: int| share(dir, w@[i]);
        assert forall|i: int| 0 <= i < n implies share(dir, #[trigger] v@[i]) == share(dir, w@[at[i]]) by {
            assert(decreases_to!(v => v@[i]));
            assert(at.contains(at[i]));
            assert(up.to_multiset().count(at[i]) > 0);
            assert(up.contains(at[i]));
            match (v@[i], w@[at[i]]) {
                (Slot::Entry(name, Node::Directory(l)), Slot::Entry(m, Node::Directory(k))) => {
                    lemma_rearranged(joined(dir, name@), l, k);
                },
                _ => {},
            }
        }
        lemma_values_of_the_same(at, up, g);
        assert(at.map_values(g) =~= v@.take(n as int).map_values(f));
        assert(up.map_values(g) =~= w@.take(n as int).map_values(f));
        lemma_total_same(at.map_values(g), up.map_values(g));
        lemma_total_of_shares(dir, v, n);
        lemma_total_of_shares(dir, w, n);
    }
}

spec fn keys(s: Seq<UnixPath>) -> Seq<Seq<Seq<u8>>> {
    s.map_values(|p: UnixPath| components(p@))
}

proof fn lemma_keys_in_order(s: Seq<UnixPath>)
    requires
        sorted(s),
    ensures
        sorted_by(
            keys(s),
            |a: Seq<Seq<u8>>, b: Seq<Seq<u8>>| a == b || lex(a, b, component_less()),
        ),
        total_ordering(|a: Seq<Seq<u8>>, b: Seq<Seq<u8>>| a == b || lex(a, b, component_less())),
{
    let less = |a: Seq<Seq<u8>>, b: Seq<Seq<u8>>| lex(a, b, component_less());
    let leq = |a: Seq<Seq<u8>>, b: Seq<Seq<u8>>| a == b || lex(a, b, component_less());
    lemma_path_order();
    assert(strict_total(less));
    assert forall|a: Seq<Seq<u8>>, b: Seq<Seq<u8>>| #[trigger] leq(a, b) && #[trigger] leq(b, a) implies a
        == b by {
        if a != b {
            assert(less(a, b) && less(b, a));
            assert(less(a, a));
        }
    }
    assert forall|a: Seq<Seq<u8>>, b: Seq<Seq<u8>>, c: Seq<Seq<u8>>| #[trigger] leq(a, b) && #[trigger] leq(
        b,
        c,
    ) implies leq(a, c) by {
        if a != b && b != c {
            assert(less(a, b) && less(b, c));
        }
    }
    assert forall|a: Seq<Seq<u8>>, b: Seq<Seq<u8>>| #[trigger] leq(a, b) || leq(b, a) by {
        assert(a == b || less(a, b) || less(b, a));
    }
    assert forall|i: int, j: int| 0 <= i < j < keys(s).len() implies #[trigger] leq(keys(s)[i], keys(s)[j]) by {
        assert(!s[j].before(s[i]));
        assert(keys(s)[i] == keys(s)[j] || less(keys(s)[i], keys(s)[j]) || less(keys(s)[j], keys(s)[i]));
    }
}

/// The paths of a sorted list come from those found.
proof fn lemma_sorted_keys(found: Seq<Seq<u8>>, out: Seq<UnixPath>)
    requires
        sorted_from(found, out),
    ensures
        sorted(out),
        keys(out).to_multiset() == found.map_values(|p: Seq<u8>| components(p)).to_multiset(),
        paths(out).to_multiset() == found.to_multiset(),
{
    let list = choose|list: Seq<UnixPath>| paths(list) == found && #[trigger] stably_sorted(list, out);
    lemma_values_of_the_same(out, list, |p: UnixPath| components(p@));
    lemma_values_of_the_same(out, list, |p: UnixPath| p@);
    assert(out.map_values(|p: UnixPath| p@) =~= paths(out));
    assert(list.map_values(|p: UnixPath| p@) =~= found);
    assert(keys(list) =~= found.map_values(|p: Seq<u8>| components(p)));
}

/// The files of a search do not depend on the order in which directories give their entries:
/// where one search succeeds so does the other, with the same paths at the same places.
pub proof fn lemma_order_of_entries_is_nothing(
    path: &UnixPath,
    first: &Start,
    second: &Start,
    a: Listing,
    b: Listing,
    x: Result<Vec<UnixPath>, DiscoveryError>,
    y: Result<Vec<UnixPath>, DiscoveryError>,
)
    requires
        *first == Start::Directory(a),
        *second == Start::Directory(b),
        rearranged(a, b),
        call_ensures(discover_test_files, (path, first), x),
        call_ensures(discover_test_files, (path, second), y),
    ensures
        x is Ok <==> y is Ok,
        x matches Ok(v) ==> {
            &&& v@.len() == y->Ok_0@.len()
            &&& forall|i: int| 0 <= i < v@.len() ==> same_path((#[trigger] v@[i])@, y->Ok_0@[i]@)
        },
{
    let path = path@;
    lemma_rearranged(path, a, b);
    if scripts_in(path, a) is Ok {
        let f = scripts_in(path, a)->Ok_0;
        let g = scripts_in(path, b)->Ok_0;
        f.to_multiset_ensures();
        g.to_multiset_ensures();
        assert(f.len() == g.len());
        if f.len() > 0 {
            let v = x->Ok_0@;
            let w = y->Ok_0@;
            let c = |p: Seq<u8>| components(p);
            let leq = |a: Seq<Seq<u8>>, b: Seq<Seq<u8>>| a == b || lex(a, b, component_less());
            lemma_sorted_keys(f, v);
            lemma_sorted_keys(g, w);
            lemma_values_of_the_same(f, g, c);
            lemma_keys_in_order(v);
            lemma_keys_in_order(w);
            lemma_sorted_unique(keys(v), keys(w), leq);
            assert forall|i: int| 0 <= i < v.len() implies same_path((#[trigger] v[i])@, w[i]@) by {
                assert(keys(v)[i] == keys(w)[i]);
            }
        }
    }
}

/// A search of a directory succeeds where some way leads to a script and none to an error. It
/// gives the scripts to which a way leads and nothing else, in the order of paths, as many as
/// there are ways.
pub proof fn lemma_search_gives_the_scripts(
    path: &UnixPath,
    start: &Start,
    l: Listing,
    r: Result<Vec<UnixPath>, DiscoveryError>,
)
    requires
        *start == Start::Directory(l),
        call_ensures(discover_test_files, (path, start), r),
    ensures
        r is Ok <==> (exists|way: Seq<int>| #[trigger] leads_to_script(path@, l, way)) && (forall|
            way: Seq<int>,
        | !#[trigger] leads_to_error(path@, l, way)),
        r matches Ok(v) ==> {
            &&& forall|i: int, j: int| 0 <= i < j < v@.len() ==> !path_less((#[trigger] v@[j])@, (#[trigger] v@[i])@)
            &&& forall|p: Seq<u8>| #[trigger]
                paths(v@).contains(p) <==> exists|way: Seq<int>| #[trigger]
                    leads_to_script(path@, l, way) && path_at(path@, l, way) == p
            &&& exists|found: Seq<Seq<u8>>, ways: Seq<Seq<int>>| #[trigger]
                are_ways_to(path@, l, l.0->0@.len() as int, found, ways) && paths(v@).to_multiset()
                    == found.to_multiset()
        },
{
    let path = path@;
    let s = scripts_in(path, l);
    if s is Err {
        let way = lemma_errors_are_on_the_way(path, l);
        assert(leads_to_error(path, l, way));
    } else {
        let found = s->Ok_0;
        let ways = lemma_ways(path, l);
        if found.len() > 0 {
            assert(leads_to_script(path, l, ways[0]));
            let v = r->Ok_0;
            lemma_sorted_keys(found, v@);
            assert forall|i: int, j: int| 0 <= i < j < v@.len() implies !path_less(
                (#[trigger] v@[j])@,
                (#[trigger] v@[i])@,
            ) by {
                assert(!v@[j].before(v@[i]));
            }
            found.to_multiset_ensures();
            paths(v@).to_multiset_ensures();
            assert forall|p: Seq<u8>| #[trigger]
                paths(v@).contains(p) <==> exists|way: Seq<int>| #[trigger]
                    leads_to_script(path, l, way) && path_at(path, l, way) == p by {
                lemma_every_script_is_found(path, l, p);
                assert(paths(v@).contains(p) <==> paths(v@).to_multiset().count(p) > 0);
                assert(found.contains(p) <==> found.to_multiset().count(p) > 0);
            }
        } else {
            assert forall|way: Seq<int>| !#[trigger] leads_to_script(path, l, way) by {
                if leads_to_script(path, l, way) {
                    lemma_way_begins(path, l, way);
                    assert(ways.contains(way));
                }
            }
        }
    }
}

proof fn lemma_same_encoding(a: Seq<char>, b: Seq<char>)
    ensures
        encode_utf8(a) == encode_utf8(b) <==> a == b,
{
    encode_utf8_decode_utf8(a);
    encode_utf8_decode_utf8(b);
}

/// An entry of a directory is hidden where its name begins with a dot, and only there.
pub proof fn lemma_dot_names_are_hidden(dir: Seq<u8>, name: Seq<char>)
    requires
        name.len() > 0,
        !name.contains('/'),
        name != seq!['.'],
        name != seq!['.', '.'],
    ensures
        is_hidden(joined(dir, encode_utf8(name))) <==> name[0] == '.',
{
    let n = encode_utf8(name);
    lemma_no_slash(name);
    encode_utf8_valid_utf8(name);
    encode_utf8_decode_utf8(name);
    assert(n.len() > 0) by {
        if n.len() == 0 {
            lemma_same_encoding(name, Seq::empty());
            assert(n =~= encode_utf8(Seq::<char>::empty()));
        }
    }
    let one = seq!['.'];
    let two = seq!['.', '.'];
    assert(encode_utf8(one) =~= seq![46u8]) by {
        reveal_with_fuel(encode_utf8, 3);
        assert(46u32 & 0x7f == 46u32) by (bit_vector);
        assert(one.drop_first() =~= Seq::<char>::empty());
    }
    assert(encode_utf8(two) =~= seq![46u8, 46u8]) by {
        reveal_with_fuel(encode_utf8, 3);
        assert(46u32 & 0x7f == 46u32) by (bit_vector);
        assert(two.drop_first() =~= one);
    }
    lemma_same_encoding(name, one);
    lemma_same_encoding(name, two);
    assert(n != crate::path::dot() && n != crate::path::dot_dot());
    assert(n != crate::path::slash()) by {
        if n == crate::path::slash() {
            assert(n[0] == 47u8);
            assert(n.contains(47u8));
        }
    }
    lemma_joined_name(dir, n);
    let c = components(joined(dir, n));
    assert(c.last() == n);
    reveal_strlit(".");
    assert(name.take(1)[0] == name[0]);
    if name[0] == '.' {
        assert(name.take(1) =~= "."@);
    }
}

/// Of the files whose names have a dot after their first byte, those are taken for scripts
/// by name that have `test`, `sh` or `bash` after the last one.
pub proof fn lemma_extension_decides(dir: Seq<u8>, stem: Seq<u8>, e: Seq<u8>)
    requires
        stem.len() > 0,
        !stem.contains(47u8),
        !e.contains(47u8),
        !e.contains(46u8),
    ensures
        has_shell_extension(joined(dir, stem + seq![46u8] + e)) <==> e == encode_utf8("test"@) || e
            == encode_utf8("sh"@) || e == encode_utf8("bash"@),
{
    let n = stem + seq![46u8] + e;
    let at = stem.len() as int;
    assert forall|i: int| 0 <= i < n.len() implies n[i] != 47u8 by {
        if i < at {
            assert(stem.contains(stem[i]));
        } else if i > at {
            assert(e.contains(e[i - at - 1]));
        }
    }
    assert(n.len() >= 2);
    lemma_joined_name(dir, n);
    assert(components(joined(dir, n)).last() == n);
    encode_utf8_valid_utf8("test"@);
    encode_utf8_valid_utf8("sh"@);
    encode_utf8_valid_utf8("bash"@);
    encode_utf8_decode_utf8("test"@);
    encode_utf8_decode_utf8("sh"@);
    encode_utf8_decode_utf8("bash"@);
    if valid_utf8(e) {
        decode_utf8_encode_utf8(e);
    }
    if n == crate::path::dot_dot() {
        assert(e.len() == 0);
        assert("test"@.len() == 4 && "sh"@.len() == 2 && "bash"@.len() == 4) by {
            reveal_strlit("test");
            reveal_strlit("sh");
            reveal_strlit("bash");
        }
        assert(e =~= encode_utf8(Seq::<char>::empty()));
        lemma_same_encoding("test"@, Seq::empty());
        lemma_same_encoding("sh"@, Seq::empty());
        lemma_same_encoding("bash"@, Seq::empty());
    } else {
        assert(n[at] == 46u8);
        assert(has_suffix_dot(n));
        assert forall|j: int| at < j < n.len() implies n[j] != 46u8 by {
            assert(e.contains(e[j - at - 1]));
        }
        lemma_after_last(n, 46u8, at);
        assert(n.skip(at + 1) =~= e);
    }
}

/// A file whose name has no such dot is no script by its name.
pub proof fn lemma_no_extension(dir: Seq<u8>, n: Seq<u8>)
    requires
        n.len() > 0,
        !n.contains(47u8),
        n != seq![46u8],
        forall|i: int| 0 < i < n.len() ==> #[trigger] n[i] != 46u8,
    ensures
        !has_shell_extension(joined(dir, n)),
{
    lemma_joined_name(dir, n);
    assert(components(joined(dir, n)).last() == n);
}

proof fn lemma_after_slash(at: Seq<char>, name: Seq<char>)
    requires
        !name.contains('/'),
        at.len() == 0 || at.last() == '/',
    ensures
        after_last(at + name, '/') == name,
{
    if at.len() == 0 {
        assert(at + name =~= name);
        lemma_no_last(name, '/');
    } else {
        let w = at + name;
        let i = at.len() - 1;
        assert forall|j: int| i < j < w.len() implies w[j] != '/' by {
            assert(name.contains(name[j - i - 1]));
        }
        lemma_after_last(w, '/', i);
        assert(w.skip(i + 1) =~= name);
    }
}

/// A shebang line names the command that stands first in it, whatever arguments follow;
/// where that is `env`, it names the next one.
pub proof fn lemma_shebang_names_the_command(w: Seq<char>, x: Seq<char>, args: Seq<char>)
    requires
        w.len() > 0,
        x.len() > 0,
        forall|i: int| 0 <= i < w.len() ==> !is_whitespace(#[trigger] w[i]),
        forall|i: int| 0 <= i < x.len() ==> !is_whitespace(#[trigger] x[i]),
    ensures
        !ends_with(w, "/env"@) ==> interpreter_of("#!"@ + w) == Some(w) && interpreter_of(
            "#!"@ + w + " "@ + args,
        ) == Some(w) && interpreter_of("#! "@ + w) == Some(w),
        ends_with(w, "/env"@) ==> interpreter_of("#!"@ + w) is None && interpreter_of(
            "#!"@ + w + " "@ + x,
        ) == Some(x) && interpreter_of("#!"@ + w + " "@ + x + " "@ + args) == Some(x),
{
    assert("#!"@.len() == 2 && "#! "@ =~= "#!"@ + seq![' '] && " "@ =~= seq![' ']) by {
        reveal_strlit("#!");
        reveal_strlit("#! ");
        reveal_strlit(" ");
    }
    let h = "#!"@;
    let l1 = h + w;
    let l2 = h + w + " "@ + args;
    let l3 = "#! "@ + w;
    let l4 = h + w + " "@ + x;
    let l5 = h + w + " "@ + x + " "@ + args;
    assert(l1.take(2) =~= h && l2.take(2) =~= h && l3.take(2) =~= h && l4.take(2) =~= h && l5.take(2) =~= h);
    let none = Seq::<char>::empty();
    assert(l1.skip(2) =~= w);
    assert(l2.skip(2) =~= w + seq![' '] + args);
    assert(l3.skip(2) =~= none + seq![' '] + w);
    assert(l4.skip(2) =~= w + seq![' '] + x);
    assert(l5.skip(2) =~= w + seq![' '] + (x + seq![' '] + args));
    lemma_a_word_is_itself(w);
    lemma_a_word_is_itself(x);
    lemma_white_space_parts_words(w, ' ', args);
    lemma_white_space_parts_words(none, ' ', w);
    lemma_white_space_parts_words(w, ' ', x);
    lemma_white_space_parts_words(w, ' ', x + seq![' '] + args);
    lemma_white_space_parts_words(x, ' ', args);
    assert(words(none) =~= Seq::<Seq<char>>::empty());
    assert((seq![w] + words(args))[0] == w);
    let e = seq![w] + (seq![x] + words(args));
    assert(e[0] == w && e[1] == x);
}

/// The first line of a file decides, and of the interpreter that it names the part after the
/// last slash: the file is a script where that is a shell, and is run by that interpreter;
/// else it is run by `bash`.
pub proof fn lemma_first_line_decides(
    path: Seq<u8>,
    line: Seq<char>,
    rest: Seq<char>,
    at: Seq<char>,
    name: Seq<char>,
)
    requires
        !line.contains('\n'),
        line.len() == 0 || line.last() != '\r',
        interpreter_of(line) == Some(at + name),
        at.len() == 0 || at.last() == '/',
        !name.contains('/'),
    ensures
        ({
            let head = encode_utf8(line + seq!['\n'] + rest);
            let shell = name == "sh"@ || name == "bash"@ || name == "zsh"@ || name == "dash"@ || name
                == "ash"@ || name == "ksh"@;
            &&& is_script(path, Some(head)) <==> has_shell_extension(path) || shell
            &&& shell_of(Some(head)) == (if shell {
                at + name
            } else {
                "bash"@
            })
        }),
{
    let all = line + seq!['\n'] + rest;
    encode_utf8_valid_utf8(all);
    encode_utf8_decode_utf8(all);
    lemma_lines_are_read_one_by_one(line, rest);
    assert(lines(all)[0] == line);
    lemma_after_slash(at, name);
}

/// A file whose first line does not begin with `#!` is a script by its name alone, and is run
/// by `bash`.
pub proof fn lemma_no_shebang(path: Seq<u8>, line: Seq<char>, rest: Seq<char>)
    requires
        !line.contains('\n'),
        line.len() == 0 || line.last() != '\r',
        line.len() < 2 || line[0] != '#' || line[1] != '!',
    ensures
        is_script(path, Some(encode_utf8(line + seq!['\n'] + rest))) == has_shell_extension(path),
        shell_of(Some(encode_utf8(line + seq!['\n'] + rest))) == "bash"@,
{
    let all = line + seq!['\n'] + rest;
    encode_utf8_valid_utf8(all);
    encode_utf8_decode_utf8(all);
    lemma_lines_are_read_one_by_one(line, rest);
    assert(lines(all)[0] == line);
    reveal_strlit("#!");
    if line.len() >= 2 {
        assert(line.take(2)[0] == line[0] && line.take(2)[1] == line[1]);
    }
}

/// A file that is searched is found itself, whatever its name; where there is nothing, nothing
/// is found.
pub proof fn lemma_a_file_is_found_itself(path: &UnixPath, start: &Start, r: Result<Vec<UnixPath>, DiscoveryError>)
    requires
        call_ensures(discover_test_files, (path, start), r),
    ensures
        *start is File ==> r is Ok && r->Ok_0@.len() == 1 && r->Ok_0@[0]@ == path@,
        *start is Missing ==> r is Err,
{
    if *start is File {
        let v = r->Ok_0@;
        assert(paths(v).len() == 1 && paths(v)[0] == path@);
    }
}

/// A file that could not be read, or does not begin with text, is a script by its name alone,
/// and is run by `bash`.
pub proof fn lemma_no_text(path: Seq<u8>, head: Seq<u8>)
    requires
        !valid_utf8(head),
    ensures
        is_script(path, Some(head)) == has_shell_extension(path),
        is_script(path, None) == has_shell_extension(path),
        shell_of(Some(head)) == "bash"@,
        shell_of(None) == "bash"@,
{
    reveal_strlit("#!");
}

} // verus!
