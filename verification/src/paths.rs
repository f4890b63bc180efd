//! File paths as the outputs show them: resolution against a working
//! directory, prefix stripping by path components, and display forms.
//!
//! Paths are `/`-separated strings. Comparisons go by components: the
//! pieces between separators, with empty pieces and `.` left out, so that
//! `a//b/./c` and `a/b/c` name the same place.

use vstd::prelude::*;

use crate::query::texts;
use crate::text::{
    char_views, chars_eq, chars_to_string, copy_chars, join, join_with, push_all, replace_all,
    replace_chars, split_char, split_on, str_to_chars,
};

verus! {

/// A path is absolute when it starts at the root.
pub open spec fn is_absolute(p: Seq<char>) -> bool {
    p.len() > 0 && p[0] == '/'
}

/// `p` resolved against `base`: an absolute `p` stands as it is, otherwise
/// it is appended to `base` after a separator.
pub open spec fn join_path(base: Seq<char>, p: Seq<char>) -> Seq<char> {
    if is_absolute(p) {
        p
    } else if base.len() == 0 || base.last() == '/' {
        base + p
    } else {
        base + seq!['/'] + p
    }
}

/// Whether a piece between separators is a real component.
pub open spec fn is_component(x: Seq<char>) -> bool {
    x.len() > 0 && x != seq!['.']
}

/// The pieces of `ps` that are real components, in order.
pub open spec fn keep_components(ps: Seq<Seq<char>>) -> Seq<Seq<char>>
    decreases ps.len(),
{
    if ps.len() == 0 {
        Seq::empty()
    } else {
        let r = keep_components(ps.drop_last());
        if is_component(ps.last()) {
            r.push(ps.last())
        } else {
            r
        }
    }
}

/// The components of a path.
pub open spec fn components(p: Seq<char>) -> Seq<Seq<char>> {
    keep_components(split_on(p, '/'))
}

/// `path` without the leading components of `base`, joined by `/`; `None`
/// when `base` is not a component-wise prefix of `path`.
pub open spec fn strip_prefix(path: Seq<char>, base: Seq<char>) -> Option<Seq<char>> {
    let pc = components(path);
    let bc = components(base);
    if is_absolute(path) == is_absolute(base) && bc.len() <= pc.len() && pc.take(bc.len() as int) == bc {
        Some(join(pc.skip(bc.len() as int), seq!['/']))
    } else {
        None
    }
}

/// A path for display: backslashes become `/`.
pub open spec fn path_text(p: Seq<char>) -> Seq<char> {
    replace_all(p, seq!['\\'], seq!['/'])
}

/// A path shown relative to `cwd` where it lies below it (`.` for `cwd`
/// itself), else as it is.
pub open spec fn display_path(cwd: Seq<char>, path: Seq<char>) -> Seq<char> {
    match strip_prefix(path, cwd) {
        Some(rel) => if rel.len() == 0 {
            seq!['.']
        } else {
            path_text(rel)
        },
        None => path_text(path),
    }
}

/// The components of a path.
pub fn path_components(p: &[char]) -> (r: Vec<Vec<char>>)
    ensures
        char_views(r@) == components(p@),
{
    let parts = split_char(p, '/');
    let ghost pv = char_views(parts@);
    let mut out: Vec<Vec<char>> = Vec::new();
    let mut i: usize = 0;
    proof {
        assert(pv.take(0) =~= Seq::<Seq<char>>::empty());
        assert(char_views(out@) =~= Seq::<Seq<char>>::empty());
    }
    while i < parts.len()
        invariant
            i <= parts@.len(),
            pv == char_views(parts@),
            pv == split_on(p@, '/'),
            char_views(out@) == keep_components(pv.take(i as int)),
        decreases parts.len() - i,
    {
        proof {
            assert(pv.take(i as int + 1).drop_last() =~= pv.take(i as int));
            assert(pv.take(i as int + 1).last() == parts@[i as int]@);
        }
        let piece = &parts[i];
        let is_dot = piece.len() == 1 && piece[0] == '.';
        proof {
            if piece@.len() == 1 && piece@[0] == '.' {
                assert(piece@ =~= seq!['.']);
            }
            if piece@ == seq!['.'] {
                assert(piece@.len() == 1 && piece@[0] == '.');
            }
        }
        if piece.len() > 0 && !is_dot {
            let c = copy_chars(piece.as_slice());
            let ghost o0 = out@;
            out.push(c);
            proof {
                assert(char_views(out@) =~= char_views(o0).push(c@));
            }
        }
        i = i + 1;
    }
    proof {
        assert(pv.take(parts@.len() as int) =~= pv);
    }
    out
}

/// Whether the first `n` components of `a` and of `b` agree.
fn same_components(a: &Vec<Vec<char>>, b: &Vec<Vec<char>>, n: usize) -> (r: bool)
    requires
        n <= a@.len(),
        n <= b@.len(),
    ensures
        r == (char_views(a@).take(n as int) == char_views(b@).take(n as int)),
{
    let mut i: usize = 0;
    while i < n
        invariant
            i <= n,
            n <= a@.len(),
            n <= b@.len(),
            char_views(a@).take(i as int) == char_views(b@).take(i as int),
        decreases n - i,
    {
        if !chars_eq(a[i].as_slice(), b[i].as_slice()) {
            proof {
                assert(char_views(a@).take(n as int)[i as int] == a@[i as int]@);
                assert(char_views(b@).take(n as int)[i as int] == b@[i as int]@);
            }
            return false;
        }
        proof {
            assert(char_views(a@).take(i as int + 1) =~= char_views(b@).take(i as int + 1));
        }
        i = i + 1;
    }
    true
}

/// `path` without the leading components of `base`, if `base` is a prefix.
pub fn strip_path_prefix(path: &[char], base: &[char]) -> (r: Option<Vec<char>>)
    ensures
        match r {
            Some(v) => strip_prefix(path@, base@) == Some(v@),
            None => strip_prefix(path@, base@).is_none(),
        },
{
    let pabs = path.len() > 0 && path[0] == '/';
    let babs = base.len() > 0 && base[0] == '/';
    if pabs != babs {
        return None;
    }
    let pc = path_components(path);
    let bc = path_components(base);
    if bc.len() > pc.len() {
        return None;
    }
    if !same_components(&pc, &bc, bc.len()) {
        proof {
            assert(char_views(bc@).take(bc@.len() as int) =~= char_views(bc@));
        }
        return None;
    }
    proof {
        assert(char_views(bc@).take(bc@.len() as int) =~= char_views(bc@));
    }
    let mut rest: Vec<Vec<char>> = Vec::new();
    let mut i: usize = bc.len();
    let ghost start = bc@.len() as int;
    while i < pc.len()
        invariant
            start <= i <= pc@.len(),
            start == bc@.len(),
            char_views(rest@) == char_views(pc@).subrange(start, i as int),
        decreases pc.len() - i,
    {
        let c = copy_chars(pc[i].as_slice());
        let ghost r0 = rest@;
        rest.push(c);
        proof {
            assert(char_views(rest@) =~= char_views(r0).push(c@));
            assert(char_views(rest@) =~= char_views(pc@).subrange(start, i as int + 1));
        }
        i = i + 1;
    }
    let n = rest.len();
    let joined = join_with(&rest, n, '/');
    proof {
        assert(char_views(rest@).take(n as int) =~= char_views(rest@));
        assert(char_views(pc@).subrange(start, pc@.len() as int) =~= components(path@).skip(start));
    }
    Some(joined)
}

/// `p` resolved against `base`.
pub fn join_paths(base: &[char], p: &[char]) -> (r: Vec<char>)
    ensures
        r@ == join_path(base@, p@),
{
    if p.len() > 0 && p[0] == '/' {
        return copy_chars(p);
    }
    let mut out = copy_chars(base);
    if base.len() > 0 && base[base.len() - 1] != '/' {
        out.push('/');
    }
    push_all(&mut out, p);
    proof {
        if base@.len() == 0 || base@.last() == '/' {
            assert(out@ =~= base@ + p@);
        } else {
            assert(out@ =~= base@ + seq!['/'] + p@);
        }
    }
    out
}

/// A path for display: backslashes become `/`.
pub fn path_to_text(p: &[char]) -> (r: Vec<char>)
    ensures
        r@ == path_text(p@),
{
    let pat = vec!['\\'];
    let rep = vec!['/'];
    proof {
        assert(pat@ =~= seq!['\\']);
        assert(rep@ =~= seq!['/']);
    }
    replace_chars(p, pat.as_slice(), rep.as_slice())
}

/// How the paths of an output are given.
#[derive(Debug, Clone, Copy, PartialEq, Eq, Structural)]
pub enum PathKind {
    /// Relative to the analysis root.
    RootRelative,
    /// Relative to the working directory, as the inputs were given.
    InputRelative,
    /// As the files were found.
    Absolute,
}

impl PathKind {
    /// The kind's display word.
    pub fn as_str(self) -> (r: &'static str)
        ensures
            self == PathKind::RootRelative ==> r@ == "root_relative"@,
            self == PathKind::InputRelative ==> r@ == "input_relative"@,
            self == PathKind::Absolute ==> r@ == "absolute"@,
    {
        match self {
            PathKind::RootRelative => "root_relative",
            PathKind::InputRelative => "input_relative",
            PathKind::Absolute => "absolute",
        }
    }
}

/// Formats file paths for output, relative to an analysis root or to the
/// working directory.
#[derive(Debug, Clone)]
pub struct PathFormatter {
    /// The analysis root, resolved against `cwd`.
    pub root: Option<Vec<char>>,
    /// The working directory.
    pub cwd: Vec<char>,
    /// How paths outside the root are given.
    pub path_kind: PathKind,
}

/// The path kind of an output: root-relative with a root, else
/// input-relative when no input is absolute, else absolute.
pub open spec fn path_kind_for(has_root: bool, inputs: Seq<String>) -> PathKind {
    if has_root {
        PathKind::RootRelative
    } else if forall|k: int| 0 <= k < inputs.len() ==> !is_absolute(#[trigger] inputs[k]@) {
        PathKind::InputRelative
    } else {
        PathKind::Absolute
    }
}

/// What a path formatter does: the resolved root, the working directory,
/// and the path kind.
pub struct FormatView {
    pub root: Option<Seq<char>>,
    pub cwd: Seq<char>,
    pub kind: PathKind,
}

impl FormatView {
    /// A path of the graph as it is shown: below the root relative to it,
    /// else by the path kind.
    pub open spec fn graph_path(self, path: Seq<char>) -> Seq<char> {
        let stripped = match self.root {
            Some(root) => strip_prefix(path, root),
            None => None,
        };
        match stripped {
            Some(rel) => path_text(rel),
            None => if self.kind == PathKind::InputRelative {
                display_path(self.cwd, path)
            } else {
                path_text(path)
            },
        }
    }

    /// A file name as it is shown in locations.
    pub open spec fn location(self, p: Seq<char>) -> Seq<char> {
        self.graph_path(join_path(self.cwd, p))
    }
}

impl View for PathFormatter {
    type V = FormatView;

    open spec fn view(&self) -> FormatView {
        FormatView {
            root: match self.root {
                Some(r) => Some(r@),
                None => None,
            },
            cwd: self.cwd@,
            kind: self.path_kind,
        }
    }
}

impl PathFormatter {

    /// A formatter for `root` and `inputs`, run in the directory `cwd`.
    pub fn new(root: Option<&str>, inputs: &[String], cwd: &str) -> (r: Self)
        ensures
            r.cwd@ == cwd@,
            match root {
                Some(x) => r.root matches Some(v) && v@ == join_path(cwd@, x@),
                None => r.root.is_none(),
            },
            r.path_kind == path_kind_for(root.is_some(), inputs@),
    {
        let cwd_chars = str_to_chars(cwd);
        let resolved = match root {
            Some(x) => {
                let xc = str_to_chars(x);
                Some(join_paths(cwd_chars.as_slice(), xc.as_slice()))
            },
            None => None,
        };
        let kind = if root.is_some() {
            PathKind::RootRelative
        } else {
            let mut all_relative = true;
            let mut i: usize = 0;
            while i < inputs.len()
                invariant
                    i <= inputs@.len(),
                    all_relative == forall|k: int| 0 <= k < i ==> !is_absolute(#[trigger] inputs@[k]@),
                decreases inputs.len() - i,
            {
                let c = str_to_chars(inputs[i].as_str());
                if c.len() > 0 && c[0] == '/' {
                    all_relative = false;
                }
                proof {
                    assert(c@ == inputs@[i as int]@);
                }
                i = i + 1;
            }
            if all_relative {
                PathKind::InputRelative
            } else {
                PathKind::Absolute
            }
        };
        PathFormatter { root: resolved, cwd: cwd_chars, path_kind: kind }
    }

    /// A formatter for query output: paths below the root relative to it,
    /// the others relative to `cwd` where they lie below it.
    pub fn for_queries(root: Option<&str>, cwd: &str) -> (r: Self)
        ensures
            r.cwd@ == cwd@,
            match root {
                Some(x) => r.root matches Some(v) && v@ == join_path(cwd@, x@),
                None => r.root.is_none(),
            },
            r.path_kind == PathKind::InputRelative,
    {
        let cwd_chars = str_to_chars(cwd);
        let resolved = match root {
            Some(x) => {
                let xc = str_to_chars(x);
                Some(join_paths(cwd_chars.as_slice(), xc.as_slice()))
            },
            None => None,
        };
        PathFormatter { root: resolved, cwd: cwd_chars, path_kind: PathKind::InputRelative }
    }

    /// Show `path` (already resolved) as the graph shows it.
    pub fn format_graph_path(&self, path: &[char]) -> (r: Vec<char>)
        ensures
            r@ == self@.graph_path(path@),
    {
        let stripped = match &self.root {
            Some(root) => strip_path_prefix(path, root.as_slice()),
            None => None,
        };
        match stripped {
            Some(rel) => path_to_text(rel.as_slice()),
            None => {
                if self.path_kind == PathKind::InputRelative {
                    self.display(path)
                } else {
                    path_to_text(path)
                }
            },
        }
    }

    /// Show `path` relative to the working directory where it lies below it.
    pub fn display(&self, path: &[char]) -> (r: Vec<char>)
        ensures
            r@ == display_path(self.cwd@, path@),
    {
        match strip_path_prefix(path, self.cwd.as_slice()) {
            Some(rel) => {
                if rel.len() == 0 {
                    let d = vec!['.'];
                    assert(d@ =~= seq!['.']);
                    d
                } else {
                    path_to_text(rel.as_slice())
                }
            },
            None => path_to_text(path),
        }
    }

    /// The file name `p` as locations show it.
    pub fn format_location(&self, p: &str) -> (r: String)
        ensures
            r@ == self@.location(p@),
    {
        let pc = str_to_chars(p);
        let full = join_paths(self.cwd.as_slice(), pc.as_slice());
        let shown = self.format_graph_path(full.as_slice());
        chars_to_string(shown.as_slice())
    }

    /// The analysis root as the output shows it.
    pub fn format_analysis_root(&self, root: &str) -> (r: String)
        ensures
            r@ == display_path(self.cwd@, join_path(self.cwd@, root@)),
    {
        let rc = str_to_chars(root);
        let full = join_paths(self.cwd.as_slice(), rc.as_slice());
        let shown = self.display(full.as_slice());
        chars_to_string(shown.as_slice())
    }

    /// An input path as the output shows it.
    pub fn format_input(&self, input: &str) -> (r: String)
        ensures
            r@ == self@.location(input@),
    {
        self.format_location(input)
    }

    /// Whether the file `path` lies at or below `target`, both resolved
    /// against the working directory.
    pub fn path_matches_target(&self, path: &str, target: &str) -> (r: bool)
        ensures
            r == strip_prefix(join_path(self.cwd@, path@), join_path(self.cwd@, target@)).is_some(),
    {
        let pc = str_to_chars(path);
        let tc = str_to_chars(target);
        let np = join_paths(self.cwd.as_slice(), pc.as_slice());
        let tp = join_paths(self.cwd.as_slice(), tc.as_slice());
        strip_path_prefix(np.as_slice(), tp.as_slice()).is_some()
    }
}

/// Where a module's package chain starts among its entries (outermost
/// directory first, the module itself last): past the leading entries
/// that are not packages, always keeping the last entry.
pub open spec fn package_start(is_package: Seq<bool>) -> nat
    decreases is_package.len(),
{
    if is_package.len() <= 1 || is_package[0] {
        0
    } else {
        1 + package_start(is_package.drop_first())
    }
}

/// The dotted module name made of the names `parts` (outermost first),
/// without the leading parts that are not packages.
pub open spec fn dotted_module(parts: Seq<Seq<char>>, is_package: Seq<bool>) -> Seq<char> {
    join(parts.skip(package_start(is_package) as int), seq!['.'])
}

/// The dotted module name of a module whose enclosing entries, outermost
/// first and ending with the module itself, are named `parts`, where
/// `is_package[i]` says whether entry `i` is a package directory. The
/// leading entries that are not packages are left out (the last entry
/// always stays); the rest are joined by dots.
pub fn dotted_module_name(parts: &[String], is_package: &[bool]) -> (r: String)
    requires
        parts@.len() == is_package@.len(),
    ensures
        r@ == dotted_module(texts(parts@), is_package@),
{
    let ghost f = is_package@;
    let mut start: usize = 0;
    proof {
        assert(f.skip(0) =~= f);
    }
    while is_package.len() - start > 1 && !is_package[start]
        invariant
            f == is_package@,
            start < f.len() || f.len() == 0,
            start <= f.len(),
            package_start(f) == start + package_start(f.skip(start as int)),
        decreases is_package.len() - start,
    {
        proof {
            let g = f.skip(start as int);
            assert(g.len() >= 2 && !g[0]);
            assert(g.drop_first() =~= f.skip(start as int + 1));
        }
        start = start + 1;
    }
    proof {
        let g = f.skip(start as int);
        if g.len() > 1 {
            assert(g[0]);
        }
        assert(package_start(g) == 0);
    }
    let mut names: Vec<Vec<char>> = Vec::new();
    let mut i: usize = start;
    let ghost tv = texts(parts@);
    while i < parts.len()
        invariant
            start <= i <= parts@.len(),
            tv == texts(parts@),
            char_views(names@) == tv.subrange(start as int, i as int),
        decreases parts.len() - i,
    {
        let c = str_to_chars(parts[i].as_str());
        let ghost n0 = names@;
        names.push(c);
        proof {
            assert(char_views(names@) =~= char_views(n0).push(c@));
            assert(char_views(names@) =~= tv.subrange(start as int, i as int + 1));
        }
        i = i + 1;
    }
    let n = names.len();
    let joined = join_with(&names, n, '.');
    proof {
        assert(char_views(names@).take(n as int) =~= char_views(names@));
        if start <= parts@.len() {
            assert(tv.skip(start as int) =~= tv.subrange(start as int, parts@.len() as int));
        }
    }
    chars_to_string(joined.as_slice())
}

} // verus!
