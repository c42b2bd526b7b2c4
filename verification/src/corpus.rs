//! Defaults shared by the command-line tool and the demos, and the location
//! of the film corpus: `data/films.json` at the workspace root, two
//! directories above a crate's own directory (`<root>/crates/<name>`).
//!
//! Paths are `/`-separated text here, read as `std::path::Path` reads them
//! on Unix: a path's parent drops its last component; empty components
//! (repeated or trailing separators) and `.` components are skipped, except
//! a leading `.`, which is a component of its own; `..` is an ordinary
//! component. The parent is a prefix of the path's text.

use vstd::prelude::*;
use vstd::string::*;

verus! {

/// Default name of the on-disk film corpus.
pub const DEFAULT_CORPUS_FILENAME: &'static str = "films.json";

/// Name of the directory, under the workspace root, that holds the corpus.
pub const DATA_DIR: &'static str = "data";

/// Default Qdrant gRPC URL (what `compose.yml` publishes).
pub const DEFAULT_QDRANT_URL: &'static str = "http://localhost:6334";

/// Default collection name used by every demo.
pub const DEFAULT_COLLECTION: &'static str = "sakila_films";

/// Default top-k for query results: every demo asserts this exact count.
pub const DEFAULT_TOP_K: usize = 5;

/// Default canned query: short, generic enough to land non-trivial results
/// against the Sakila corpus.
pub const DEFAULT_QUERY: &'static str = "a romantic comedy";

/// Length of the start of a path: a leading root separator, or the leading
/// `.` component of a relative path (`.` alone or followed by a separator).
pub open spec fn start_len(p: Seq<char>) -> int {
    if p.len() > 0 && p[0] == '/' {
        1
    } else if p.len() > 0 && p[0] == '.' && (p.len() == 1 || p[1] == '/') {
        1
    } else {
        0
    }
}

/// The end of `p[..e]` once trailing separators and `.` components are
/// dropped, not going below `s`.
pub open spec fn trim_back(p: Seq<char>, s: int, e: int) -> int
    decreases e - s,
{
    if e <= s {
        e
    } else if p[e - 1] == '/' {
        trim_back(p, s, e - 1)
    } else if p[e - 1] == '.' && (e - 1 == s || p[e - 2] == '/') {
        trim_back(p, s, e - 1)
    } else {
        e
    }
}

/// Where the last component of `p[s..e]` starts: just after its last
/// separator, or at `s`.
pub open spec fn piece_start(p: Seq<char>, s: int, e: int) -> int
    decreases e - s,
{
    if e <= s {
        s
    } else if p[e - 1] == '/' {
        e
    } else {
        piece_start(p, s, e - 1)
    }
}

/// The parent of a path: the text before its last component, without the
/// separators and `.` components that end it. The empty path, the root and
/// a path with no component but the root have none; the parent of a lone
/// `.` (or of a single component) is the empty path.
pub open spec fn parent_path(p: Seq<char>) -> Option<Seq<char>> {
    let s = start_len(p);
    let e = trim_back(p, s, p.len() as int);
    if e <= s {
        if s == 1 && p[0] == '.' {
            Some(Seq::empty())
        } else {
            None
        }
    } else {
        Some(p.subrange(0, trim_back(p, s, piece_start(p, s, e))))
    }
}

/// The start length of `p` (see [`start_len`]).
fn start_of(p: &str, len: usize) -> (s: usize)
    requires
        len == p@.len(),
    ensures
        s == start_len(p@),
{
    if len > 0 && p.get_char(0) == '/' {
        1
    } else if len > 0 && p.get_char(0) == '.' && (len == 1 || p.get_char(1) == '/') {
        1
    } else {
        0
    }
}

/// Computes [`trim_back`].
fn trimmed_back(p: &str, s: usize, e: usize) -> (r: usize)
    requires
        s <= e <= p@.len(),
    ensures
        r == trim_back(p@, s as int, e as int),
        s <= r <= e,
{
    let mut n: usize = e;
    loop
        invariant
            s <= n <= e,
            e <= p@.len(),
            trim_back(p@, s as int, n as int) == trim_back(p@, s as int, e as int),
        decreases n,
    {
        if n <= s {
            return n;
        }
        let c = p.get_char(n - 1);
        if c == '/' || (c == '.' && (n - 1 == s || p.get_char(n - 2) == '/')) {
            n = n - 1;
        } else {
            return n;
        }
    }
}

/// Computes [`piece_start`].
fn piece_start_of(p: &str, s: usize, e: usize) -> (r: usize)
    requires
        s <= e <= p@.len(),
    ensures
        r == piece_start(p@, s as int, e as int),
        s <= r <= e,
{
    let mut n: usize = e;
    loop
        invariant
            s <= n <= e,
            e <= p@.len(),
            piece_start(p@, s as int, n as int) == piece_start(p@, s as int, e as int),
        decreases n,
    {
        if n <= s {
            return s;
        }
        if p.get_char(n - 1) == '/' {
            return n;
        }
        n = n - 1;
    }
}

/// The parent of path `p`, as defined by [`parent_path`].
pub fn parent_dir(p: &str) -> (r: Option<String>)
    ensures
        match r {
            Some(s) => parent_path(p@) == Some(s@),
            None => parent_path(p@) is None,
        },
{
    let len: usize = p.unicode_len();
    let s: usize = start_of(p, len);
    let e: usize = trimmed_back(p, s, len);
    if e <= s {
        if s == 1 && p.get_char(0) == '.' {
            return Some(String::new());
        }
        return None;
    }
    let b: usize = piece_start_of(p, s, e);
    let t: usize = trimmed_back(p, s, b);
    Some(p.substring_char(0, t).to_owned())
}

/// `part` appended to `base` as a further component.
pub open spec fn join_path(base: Seq<char>, part: Seq<char>) -> Seq<char> {
    if base.len() == 0 {
        part
    } else if base.last() == '/' {
        base + part
    } else {
        base + seq!['/'] + part
    }
}

/// The corpus location for a crate directory: `data/films.json` under the
/// directory two levels up, or nothing when the crate directory has no
/// grandparent.
pub open spec fn corpus_path_spec(crate_dir: Seq<char>) -> Option<Seq<char>> {
    match parent_path(crate_dir) {
        None => None,
        Some(crates) => match parent_path(crates) {
            None => None,
            Some(root) => Some(join_path(join_path(root, DATA_DIR@), DEFAULT_CORPUS_FILENAME@)),
        },
    }
}

/// `part` appended to `base`, as defined by [`join_path`].
pub fn join(base: &str, part: &str) -> (r: String)
    ensures
        r@ == join_path(base@, part@),
{
    let n: usize = base.unicode_len();
    if n == 0 {
        return part.to_owned();
    }
    let mut s = base.to_owned();
    if base.get_char(n - 1) != '/' {
        s.append("/");
        proof {
            reveal_strlit("/");
        }
    }
    s.append(part);
    proof {
        if base@.last() != '/' {
            assert(s@ =~= base@ + seq!['/'] + part@);
        }
    }
    s
}

/// Resolves `data/films.json` at the workspace root from a crate directory
/// `<root>/crates/<name>`: two levels up, then into `data/`. Nothing is
/// returned when `crate_dir` has no grandparent.
pub fn default_corpus_path(crate_dir: &str) -> (r: Option<String>)
    ensures
        match r {
            Some(s) => corpus_path_spec(crate_dir@) == Some(s@),
            None => corpus_path_spec(crate_dir@) is None,
        },
{
    let crates = match parent_dir(crate_dir) {
        Some(c) => c,
        None => return None,
    };
    let root = match parent_dir(crates.as_str()) {
        Some(r) => r,
        None => return None,
    };
    let data = join(root.as_str(), DATA_DIR);
    Some(join(data.as_str(), DEFAULT_CORPUS_FILENAME))
}

/// The corpus always lives in the `data` directory as `films.json`: every
/// resolved corpus path ends with `data/films.json`, after the workspace
/// root (two levels above the crate directory).
pub proof fn law_corpus_path_ends_with_data_file(crate_dir: Seq<char>)
    ensures
        corpus_path_spec(crate_dir) matches Some(path) ==> {
            let tail = DATA_DIR@ + seq!['/'] + DEFAULT_CORPUS_FILENAME@;
            &&& path.len() >= tail.len()
            &&& path.subrange(path.len() - tail.len(), path.len() as int) == tail
        },
{
    reveal_strlit("data");
    reveal_strlit("films.json");
    if let Some(crates) = parent_path(crate_dir) {
        if let Some(root) = parent_path(crates) {
            let data = join_path(root, DATA_DIR@);
            let tail = DATA_DIR@ + seq!['/'] + DEFAULT_CORPUS_FILENAME@;
            let path = join_path(data, DEFAULT_CORPUS_FILENAME@);
            assert(data.len() >= 4);
            assert(data.subrange(data.len() - 4, data.len() as int) =~= DATA_DIR@);
            assert(data.last() == 'a');
            assert(path == data + seq!['/'] + DEFAULT_CORPUS_FILENAME@);
            assert(path.subrange(path.len() - tail.len(), path.len() as int) =~= tail);
        }
    }
}

} // verus!
