//! The addressing scheme of a project tree: a base directory, paths stored
//! relative to it, and the relative-path algorithm that computes how to reach
//! one file from the directory of another.

use vstd::prelude::*;
use crate::text::{
    join_parts, join_strings, lemma_raw_split_no_sep, nonempty_parts, push_char, raw_split,
    split_raw, drop_empty,
};

verus! {

/// A segment usable as one path component: nonempty and free of separators.
pub open spec fn seg_ok(p: Seq<char>) -> bool {
    p.len() > 0 && forall|j: int| 0 <= j < p.len() ==> p[j] != '/'
}

/// Every segment of `ps` is usable as a path component.
pub open spec fn parts_wf(ps: Seq<Seq<char>>) -> bool {
    forall|i: int| 0 <= i < ps.len() ==> seg_ok(#[trigger] ps[i])
}

/// The string starts with a separator, so it denotes an absolute path.
pub open spec fn is_abs_str(s: Seq<char>) -> bool {
    s.len() > 0 && s[0] == '/'
}

/// The nonempty separator-delimited segments of a path string.
pub open spec fn path_segments(s: Seq<char>) -> Seq<Seq<char>> {
    nonempty_parts(raw_split(s, '/'))
}

/// The textual form of a path: segments joined by the separator, with a
/// leading separator when the path is absolute.
pub open spec fn spec_render(absolute: bool, segs: Seq<Seq<char>>) -> Seq<char> {
    if absolute {
        seq!['/'] + join_parts(segs, '/')
    } else {
        join_parts(segs, '/')
    }
}

pub proof fn lemma_path_segments_wf(s: Seq<char>)
    ensures
        parts_wf(path_segments(s)),
{
    lemma_raw_split_no_sep(s, '/');
    let raw = raw_split(s, '/');
    let kept = path_segments(s);
    assert forall|i: int| 0 <= i < kept.len() implies seg_ok(#[trigger] kept[i]) by {
        Seq::lemma_filter_pred(raw, |p: Seq<char>| p.len() > 0, i);
        assert(kept[i].len() > 0);
        assert forall|j: int| 0 <= j < kept[i].len() implies kept[i][j] != '/' by {
            lemma_filter_keeps_no_sep(raw, i, j);
        }
    }
}

proof fn lemma_filter_keeps_no_sep(raw: Seq<Seq<char>>, i: int, j: int)
    requires
        forall|a: int, b: int|
            0 <= a < raw.len() && 0 <= b < raw[a].len() ==> #[trigger] raw[a][b] != '/',
        0 <= i < nonempty_parts(raw).len(),
        0 <= j < nonempty_parts(raw)[i].len(),
    ensures
        nonempty_parts(raw)[i][j] != '/',
    decreases raw.len(),
{
    reveal(Seq::filter);
    if raw.len() > 0 {
        let pre = raw.drop_last();
        let pred = |p: Seq<char>| p.len() > 0;
        if pred(raw.last()) && i == raw.filter(pred).len() - 1 {
            assert(nonempty_parts(raw)[i] == raw.last());
            assert(raw[raw.len() - 1][j] != '/');
        } else {
            assert(forall|a: int, b: int|
                0 <= a < pre.len() && 0 <= b < pre[a].len() ==> #[trigger] pre[a][b] != '/');
            lemma_filter_keeps_no_sep(pre, i, j);
        }
    }
}

/// A path value: an absoluteness flag and the ordered components.
pub struct PurePath {
    pub absolute: bool,
    pub parts: Vec<String>,
}

impl PurePath {
    /// The components, as a sequence of character sequences.
    pub open spec fn segs(&self) -> Seq<Seq<char>> {
        self.parts.deep_view()
    }

    /// Well-formed: every component is nonempty and separator-free.
    pub open spec fn wf(&self) -> bool {
        parts_wf(self.segs())
    }

    /// Splits a path string into a path value, dropping empty segments as
    /// repeated separators do not add components.
    pub fn parse(s: &str) -> (r: PurePath)
        ensures
            r.absolute == is_abs_str(s@),
            r.segs() == path_segments(s@),
            r.wf(),
    {
        let absolute = s.unicode_len() > 0 && s.get_char(0) == '/';
        let raw = split_raw(s, '/');
        let parts = drop_empty(raw);
        proof {
            lemma_path_segments_wf(s@);
        }
        PurePath { absolute, parts }
    }

    /// The textual form of this path.
    pub fn render(&self) -> (r: String)
        ensures
            r@ == spec_render(self.absolute, self.segs()),
    {
        render_path(self.absolute, &self.parts)
    }

    /// An identical path value.
    pub fn duplicate(&self) -> (r: PurePath)
        ensures
            r.absolute == self.absolute,
            r.segs() == self.segs(),
    {
        PurePath { absolute: self.absolute, parts: copy_parts(&self.parts) }
    }
}

/// A base directory where the documents are stored: the root of a project
/// tree, holding the conventional `content` and `themes` subdirectories.
pub struct BaseDir {
    pub path: PurePath,
}

/// How `address` stores a path under a base: an absolute path that starts
/// with the base's own components loses that prefix and becomes relative;
/// anything else is stored as given.
pub open spec fn spec_address(base: Seq<Seq<char>>, abs: bool, segs: Seq<Seq<char>>) -> (
    bool,
    Seq<Seq<char>>,
) {
    if abs && base.is_prefix_of(segs) {
        (false, segs.skip(base.len() as int))
    } else {
        (abs, segs)
    }
}

/// Whether the strings of `a` are the leading strings of `b`.
pub fn is_seg_prefix(a: &Vec<String>, b: &Vec<String>) -> (r: bool)
    ensures
        r == a.deep_view().is_prefix_of(b.deep_view()),
{
    if a.len() > b.len() {
        assert(!a.deep_view().is_prefix_of(b.deep_view()));
        return false;
    }
    let mut i: usize = 0;
    while i < a.len()
        invariant
            i <= a.len() <= b.len(),
            forall|k: int| 0 <= k < i ==> a.deep_view()[k] == b.deep_view()[k],
        decreases a.len() - i,
    {
        if !(a[i] == b[i]) {
            proof {
                assert(!a.deep_view().is_prefix_of(b.deep_view())) by {
                    if a.deep_view().is_prefix_of(b.deep_view()) {
                        assert(a.deep_view()[i as int] == b.deep_view().subrange(
                            0,
                            a.deep_view().len() as int,
                        )[i as int]);
                    }
                }
            }
            return false;
        }
        i += 1;
    }
    assert(a.deep_view() =~= b.deep_view().take(a.deep_view().len() as int));
    true
}

impl BaseDir {
    pub open spec fn segs(&self) -> Seq<Seq<char>> {
        self.path.segs()
    }

    pub open spec fn wf(&self) -> bool {
        self.path.wf() && self.path.absolute
    }

    /// A base directory from its absolute textual path.
    pub fn new(s: &str) -> (r: BaseDir)
        requires
            is_abs_str(s@),
        ensures
            r.segs() == path_segments(s@),
            r.wf(),
    {
        BaseDir { path: PurePath::parse(s) }
    }

    /// An identical base directory value.
    pub fn duplicate(&self) -> (r: BaseDir)
        ensures
            r.segs() == self.segs(),
            r.path.absolute == self.path.absolute,
    {
        BaseDir { path: self.path.duplicate() }
    }

    /// The textual form of the base directory.
    pub fn render(&self) -> (r: String)
        ensures
            r@ == spec_render(self.path.absolute, self.segs()),
    {
        self.path.render()
    }

    /// Appends a path to the base directory, dropping the base's own prefix
    /// first when the path carries it (an absolute path into the tree).
    pub fn join(&self, path: &str) -> (r: RootPath)
        ensures
            r.root.segs() == self.segs(),
            r.root.path.absolute == self.path.absolute,
            (r.path.absolute, r.path.segs()) == spec_address(
                self.segs(),
                is_abs_str(path@),
                path_segments(path@),
            ),
            self.wf() ==> r.root.wf(),
            r.path.wf(),
    {
        let p = PurePath::parse(path);
        if p.absolute && is_seg_prefix(&self.path.parts, &p.parts) {
            let mut rest: Vec<String> = Vec::new();
            let mut i: usize = self.path.parts.len();
            let ghost b = self.segs().len() as int;
            proof {
                assert(b <= p.segs().len());
            }
            while i < p.parts.len()
                invariant
                    b <= i <= p.parts.len(),
                    p.segs().len() == p.parts.len(),
                    rest.deep_view().len() == i - b,
                    forall|k: int|
                        0 <= k < i - b ==> #[trigger] rest.deep_view()[k] == p.segs()[b + k],
                decreases p.parts.len() - i,
            {
                let ghost r0 = rest.deep_view();
                let item = p.parts[i].clone();
                rest.push(item);
                proof {
                    assert(rest.deep_view() =~= r0.push(p.segs()[i as int]));
                }
                i += 1;
            }
            proof {
                assert(rest.deep_view() =~= p.segs().skip(b));
                assert(forall|k: int|
                    0 <= k < p.segs().skip(b).len() ==> seg_ok(#[trigger] p.segs().skip(b)[k]));
            }
            RootPath {
                root: self.duplicate(),
                path: PurePath { absolute: false, parts: rest },
            }
        } else {
            RootPath { root: self.duplicate(), path: p }
        }
    }
}

/// A path stored relative to a [`BaseDir`].
pub struct RootPath {
    pub root: BaseDir,
    pub path: PurePath,
}

/// The longest `l` such that the first `l` segments of `a` and `b` agree
/// position by position.
pub open spec fn lcp_len(a: Seq<Seq<char>>, b: Seq<Seq<char>>) -> nat
    decreases a.len(),
{
    if a.len() == 0 || b.len() == 0 || a[0] != b[0] {
        0
    } else {
        (1 + lcp_len(a.drop_first(), b.drop_first())) as nat
    }
}

/// `n` upward segments.
pub open spec fn climb_parts(n: nat) -> Seq<Seq<char>> {
    Seq::new(n, |i: int| ".."@)
}

/// The components of the relative route from a directory given by `from_dirs`
/// to the file `name` inside the directory given by `to_dirs`: one upward
/// segment for every component of `from_dirs` past the longest positional
/// common prefix, then the remaining components of `to_dirs`, then the name.
pub open spec fn spec_relative_parts(
    from_dirs: Seq<Seq<char>>,
    to_dirs: Seq<Seq<char>>,
    name: Seq<char>,
) -> Seq<Seq<char>> {
    let l = lcp_len(from_dirs, to_dirs) as int;
    climb_parts((from_dirs.len() - l) as nat) + to_dirs.skip(l) + seq![name]
}

pub proof fn lemma_lcp_props(a: Seq<Seq<char>>, b: Seq<Seq<char>>)
    ensures
        lcp_len(a, b) <= a.len(),
        lcp_len(a, b) <= b.len(),
        forall|k: int| 0 <= k < lcp_len(a, b) ==> a[k] == b[k],
    decreases a.len(),
{
    if a.len() > 0 && b.len() > 0 && a[0] == b[0] {
        lemma_lcp_props(a.drop_first(), b.drop_first());
        assert forall|k: int| 0 <= k < lcp_len(a, b) implies a[k] == b[k] by {
            if k > 0 {
                assert(a.drop_first()[k - 1] == b.drop_first()[k - 1]);
            }
        }
    }
}

proof fn lemma_lcp_from_scan(a: Seq<Seq<char>>, b: Seq<Seq<char>>, l: int)
    requires
        0 <= l <= a.len(),
        l <= b.len(),
        forall|k: int| 0 <= k < l ==> a[k] == b[k],
        !(l < a.len() && l < b.len() && a[l] == b[l]),
    ensures
        lcp_len(a, b) == l,
    decreases l,
{
    if l == 0 {
        if a.len() > 0 && b.len() > 0 {
            assert(a[0] != b[0]);
        }
    } else {
        assert(a[0] == b[0]);
        lemma_lcp_from_scan(a.drop_first(), b.drop_first(), l - 1);
    }
}

impl RootPath {
    pub open spec fn segs(&self) -> Seq<Seq<char>> {
        self.path.segs()
    }

    pub open spec fn wf(&self) -> bool {
        self.root.wf() && self.path.wf()
    }

    /// A path under `root`, stored relative to it; an absolute path loses the
    /// root's own prefix, as [`BaseDir::join`] does.
    pub fn new(root: &BaseDir, path: &str) -> (r: RootPath)
        ensures
            r.root.segs() == root.segs(),
            r.root.path.absolute == root.path.absolute,
            (r.path.absolute, r.path.segs()) == spec_address(
                root.segs(),
                is_abs_str(path@),
                path_segments(path@),
            ),
            root.wf() ==> r.root.wf(),
            r.path.wf(),
    {
        root.join(path)
    }

    /// An identical path value.
    pub fn duplicate(&self) -> (r: RootPath)
        ensures
            r.root.segs() == self.root.segs(),
            r.root.path.absolute == self.root.path.absolute,
            r.path.absolute == self.path.absolute,
            r.path.segs() == self.path.segs(),
    {
        RootPath { root: self.root.duplicate(), path: self.path.duplicate() }
    }

    /// The full textual path: the base directory followed by the stored
    /// path, or the stored path alone where it is itself absolute.
    pub fn absolute(&self) -> (r: String)
        ensures
            self.path.absolute ==> r@ == spec_render(true, self.path.segs()),
            !self.path.absolute ==> r@ == spec_render(
                self.root.path.absolute,
                self.root.segs() + self.path.segs(),
            ),
    {
        if self.path.absolute {
            self.path.render()
        } else {
            let mut all = copy_parts(&self.root.path.parts);
            let mut i: usize = 0;
            while i < self.path.parts.len()
                invariant
                    i <= self.path.parts.len(),
                    all.deep_view() == self.root.segs() + self.path.segs().take(i as int),
                decreases self.path.parts.len() - i,
            {
                let ghost a0 = all.deep_view();
                let item = self.path.parts[i].clone();
                all.push(item);
                proof {
                    assert(all.deep_view() =~= a0.push(self.path.segs()[i as int]));
                    assert(all.deep_view() =~= self.root.segs() + self.path.segs().take(i + 1));
                }
                i += 1;
            }
            proof {
                assert(self.root.segs() + self.path.segs().take(self.path.segs().len() as int)
                    =~= self.root.segs() + self.path.segs());
            }
            let joined = PurePath { absolute: self.root.path.absolute, parts: all };
            joined.render()
        }
    }

    /// The stored path, relative to the base directory.
    pub fn relative(&self) -> (r: String)
        ensures
            r@ == spec_render(self.path.absolute, self.path.segs()),
    {
        self.path.render()
    }

    /// The relative route from the directory of `orig` to this file, assuming
    /// shared structure only from the root inward: the longest positional
    /// common prefix of the two parent directories stays implicit, every
    /// further parent component of `orig` becomes one upward segment, and the
    /// remaining parent components of `self` are descended before naming the
    /// file itself.
    pub fn relative_to(&self, orig: &RootPath) -> (r: String)
        requires
            self.path.segs().len() >= 1,
            orig.path.segs().len() >= 1,
        ensures
            r@ == join_parts(
                spec_relative_parts(
                    orig.path.segs().drop_last(),
                    self.path.segs().drop_last(),
                    self.path.segs().last(),
                ),
                '/',
            ),
    {
        let ghost fd = orig.path.segs().drop_last();
        let ghost td = self.path.segs().drop_last();
        let n_from = orig.path.parts.len() - 1;
        let n_to = self.path.parts.len() - 1;
        let mut l: usize = 0;
        while l < n_from && l < n_to && orig.path.parts[l] == self.path.parts[l]
            invariant
                l <= n_from,
                l <= n_to,
                n_from == fd.len(),
                n_to == td.len(),
                fd == orig.path.segs().drop_last(),
                td == self.path.segs().drop_last(),
                orig.path.segs().len() == n_from + 1,
                self.path.segs().len() == n_to + 1,
                forall|k: int| 0 <= k < l ==> fd[k] == td[k],
            decreases n_from - l,
        {
            l += 1;
        }
        proof {
            lemma_lcp_from_scan(fd, td, l as int);
        }
        let mut out: Vec<String> = Vec::new();
        let mut k: usize = l;
        while k < n_from
            invariant
                l <= k <= n_from,
                out.deep_view() == climb_parts((k - l) as nat),
            decreases n_from - k,
        {
            let ghost o0 = out.deep_view();
            out.push(String::from_str(".."));
            proof {
                assert(out.deep_view() =~= o0.push(".."@));
                assert(out.deep_view() =~= climb_parts((k + 1 - l) as nat));
            }
            k += 1;
        }
        let ghost climbs = climb_parts((n_from - l) as nat);
        let mut k: usize = l;
        while k < n_to
            invariant
                l <= k <= n_to,
                n_to == td.len(),
                td == self.path.segs().drop_last(),
                self.path.segs().len() == n_to + 1,
                out.deep_view() == climbs + td.subrange(l as int, k as int),
            decreases n_to - k,
        {
            let ghost o0 = out.deep_view();
            let item = self.path.parts[k].clone();
            out.push(item);
            proof {
                assert(out.deep_view() =~= o0.push(td[k as int]));
                assert(out.deep_view() =~= climbs + td.subrange(l as int, k + 1));
            }
            k += 1;
        }
        let ghost o0 = out.deep_view();
        let name = self.path.parts[n_to].clone();
        out.push(name);
        proof {
            assert(out.deep_view() =~= o0.push(self.path.segs().last()));
            assert(td.subrange(l as int, n_to as int) =~= td.skip(l as int));
            assert(out.deep_view() =~= spec_relative_parts(fd, td, self.path.segs().last()));
        }
        join_strings(&out, '/')
    }
}

/// The index of the last `.` of `f` at a position of at least one when
/// scanning no further than `i`, or minus one when there is none: the dot
/// separating a file name's stem from its extension.
pub open spec fn last_dot_at_or_before(f: Seq<char>, i: int) -> int
    decreases i,
{
    if i < 1 || i >= f.len() {
        -1
    } else if f[i] == '.' {
        i
    } else {
        last_dot_at_or_before(f, i - 1)
    }
}

pub open spec fn last_dot(f: Seq<char>) -> int {
    last_dot_at_or_before(f, f.len() - 1)
}

/// A file name with its extension replaced: the stem (the name up to the last
/// dot not in leading position, or the whole name without one) followed by a
/// dot and `ext`, or the bare stem when `ext` is empty.
pub open spec fn spec_with_ext(name: Seq<char>, ext: Seq<char>) -> Seq<char> {
    let d = last_dot(name);
    let stem = if d >= 1 {
        name.take(d)
    } else {
        name
    };
    if ext.len() > 0 {
        stem + seq!['.'] + ext
    } else {
        stem
    }
}

/// The components after replacing the extension of the final component; a
/// path without a final file name (no components, or a relative step) is
/// returned unchanged.
pub open spec fn spec_set_extension(segs: Seq<Seq<char>>, ext: Seq<char>) -> Seq<Seq<char>> {
    if segs.len() == 0 || segs.last() == "."@ || segs.last() == ".."@ {
        segs
    } else {
        segs.update(segs.len() - 1, spec_with_ext(segs.last(), ext))
    }
}

pub proof fn lemma_last_dot_value(f: Seq<char>, i: int, d: int)
    requires
        i < f.len(),
        -1 <= d <= i,
        d >= 1 ==> f[d] == '.',
        forall|k: int| 1 <= k <= i && d < k ==> f[k] != '.',
    ensures
        last_dot_at_or_before(f, i) == if d >= 1 {
            d
        } else {
            -1
        },
    decreases i,
{
    if i >= 1 {
        if f[i] == '.' {
            assert(d == i);
        } else {
            assert(d <= i - 1);
            lemma_last_dot_value(f, i - 1, d);
        }
    }
}

/// The sibling's components: the parent directory of `segs` followed by the
/// sibling path, unless the sibling is itself absolute, which replaces the
/// whole path.
pub open spec fn spec_sibling(
    abs: bool,
    segs: Seq<Seq<char>>,
    s_abs: bool,
    s_segs: Seq<Seq<char>>,
) -> (bool, Seq<Seq<char>>) {
    if s_abs {
        (true, s_segs)
    } else if segs.len() > 0 {
        (abs, segs.drop_last() + s_segs)
    } else {
        (abs, s_segs)
    }
}

impl RootPath {
    /// The same place with the file extension of the final component
    /// replaced by `ext` (or appended when there is none).
    pub fn with_extension(&self, ext: &str) -> (r: RootPath)
        requires
            self.path.wf(),
            forall|j: int| 0 <= j < ext@.len() ==> ext@[j] != '/',
        ensures
            r.root.segs() == self.root.segs(),
            r.root.path.absolute == self.root.path.absolute,
            r.path.absolute == self.path.absolute,
            r.path.segs() == spec_set_extension(self.path.segs(), ext@),
            r.path.wf(),
            self.root.wf() ==> r.root.wf(),
    {
        proof {
            reveal_strlit(".");
            reveal_strlit("..");
        }
        let n = self.path.parts.len();
        if n == 0 {
            return self.duplicate();
        }
        let name: &String = &self.path.parts[n - 1];
        let nl = name.as_str().unicode_len();
        if (nl == 1 && name.as_str().get_char(0) == '.') || (nl == 2 && name.as_str().get_char(0)
            == '.' && name.as_str().get_char(1) == '.') {
            proof {
                assert(self.path.segs().last() =~= (if nl == 1 {
                    "."@
                } else {
                    ".."@
                }));
            }
            return self.duplicate();
        }
        proof {
            assert(self.path.segs().last() != "."@ && self.path.segs().last() != ".."@) by {
                if self.path.segs().last() == "."@ {
                    assert(nl == 1 && name@[0] == '.');
                }
                if self.path.segs().last() == ".."@ {
                    assert(nl == 2 && name@[0] == '.' && name@[1] == '.');
                }
            }
        }
        let mut j: usize = nl - 1;
        while j >= 1 && name.as_str().get_char(j) != '.'
            invariant
                0 <= j < nl,
                nl == name@.len(),
                forall|k: int| j < k < nl ==> name@[k] != '.',
            decreases j,
        {
            j -= 1;
        }
        let ghost d = if j >= 1 {
            j as int
        } else {
            -1
        };
        proof {
            lemma_last_dot_value(name@, nl - 1, d);
        }
        let stem_end = if j >= 1 {
            j
        } else {
            nl
        };
        let mut new_name = String::new();
        let mut k: usize = 0;
        while k < stem_end
            invariant
                k <= stem_end <= nl,
                nl == name@.len(),
                new_name@ == name@.take(k as int),
            decreases stem_end - k,
        {
            let c = name.as_str().get_char(k);
            push_char(&mut new_name, c);
            proof {
                assert(new_name@ =~= name@.take(k + 1));
            }
            k += 1;
        }
        if ext.unicode_len() > 0 {
            push_char(&mut new_name, '.');
            new_name.append(ext);
        }
        proof {
            if d == -1 {
                assert(name@.take(nl as int) =~= name@);
            }
            assert(new_name@ == spec_with_ext(name@, ext@));
        }
        let mut parts = copy_parts(&self.path.parts);
        let _dropped = parts.pop();
        parts.push(new_name);
        proof {
            assert(parts.deep_view() =~= spec_set_extension(self.path.segs(), ext@));
            assert(seg_ok(new_name@)) by {
                assert(seg_ok(self.path.segs().last()));
            }
            assert(forall|i: int|
                0 <= i < parts.deep_view().len() ==> seg_ok(#[trigger] parts.deep_view()[i]));
        }
        RootPath {
            root: self.root.duplicate(),
            path: PurePath { absolute: self.path.absolute, parts },
        }
    }

    /// The place named `sibling` next to this file: the sibling path appended
    /// to this file's parent directory.
    pub fn sibling(&self, sibling: &str) -> (r: RootPath)
        ensures
            r.root.segs() == self.root.segs(),
            r.root.path.absolute == self.root.path.absolute,
            (r.path.absolute, r.path.segs()) == spec_sibling(
                self.path.absolute,
                self.path.segs(),
                is_abs_str(sibling@),
                path_segments(sibling@),
            ),
            self.path.wf() ==> r.path.wf(),
            self.root.wf() ==> r.root.wf(),
    {
        let s = PurePath::parse(sibling);
        if s.absolute {
            return RootPath {
                root: self.root.duplicate(),
                path: PurePath { absolute: true, parts: s.parts },
            };
        }
        let mut parts = copy_parts(&self.path.parts);
        if parts.len() > 0 {
            let _dropped = parts.pop();
        }
        let mut i: usize = 0;
        let ghost parent = if self.path.segs().len() > 0 {
            self.path.segs().drop_last()
        } else {
            self.path.segs()
        };
        while i < s.parts.len()
            invariant
                i <= s.parts.len(),
                s.segs().len() == s.parts.len(),
                parts.deep_view() == parent + s.segs().take(i as int),
            decreases s.parts.len() - i,
        {
            let ghost p0 = parts.deep_view();
            let item = s.parts[i].clone();
            parts.push(item);
            proof {
                assert(parts.deep_view() =~= p0.push(s.segs()[i as int]));
                assert(parts.deep_view() =~= parent + s.segs().take(i + 1));
            }
            i += 1;
        }
        proof {
            assert(parent + s.segs().take(s.segs().len() as int) =~= parent + s.segs());
            if self.path.wf() {
                assert(forall|k: int|
                    0 <= k < (parent + s.segs()).len() ==> seg_ok(
                        #[trigger] (parent + s.segs())[k],
                    ));
            }
        }
        RootPath {
            root: self.root.duplicate(),
            path: PurePath { absolute: self.path.absolute, parts },
        }
    }
}

/// The textual form of a path given by its absoluteness and components.
pub fn render_path(absolute: bool, parts: &Vec<String>) -> (r: String)
    ensures
        r@ == spec_render(absolute, parts.deep_view()),
{
    let joined = join_strings(parts, '/');
    if absolute {
        let mut r = String::new();
        push_char(&mut r, '/');
        r.append(joined.as_str());
        proof {
            assert(r@ =~= seq!['/'] + joined@);
        }
        r
    } else {
        joined
    }
}

/// The textual forms of the successive parent directories of `path`, nearest
/// first, ending with the root of the path (the filesystem root for an
/// absolute path, the empty path for a relative one).
pub fn ancestors(path: &str) -> (r: Vec<String>)
    ensures
        r.len() == path_segments(path@).len(),
        forall|i: int|
            0 <= i < r.len() ==> r.deep_view()[i] == spec_render(
                is_abs_str(path@),
                path_segments(path@).take(path_segments(path@).len() - 1 - i),
            ),
{
    let mut p = PurePath::parse(path);
    let ghost segs = path_segments(path@);
    let ghost n = segs.len() as int;
    let mut out: Vec<String> = Vec::new();
    let mut k: usize = 0;
    proof {
        assert(n == p.parts.len());
    }
    while p.parts.len() > 0
        invariant
            segs == path_segments(path@),
            n == segs.len(),
            k <= n <= usize::MAX,
            p.parts.len() == n - k,
            p.absolute == is_abs_str(path@),
            p.segs() == segs.take(n - k),
            out.len() == k,
            forall|i: int|
                0 <= i < k ==> out.deep_view()[i] == spec_render(
                    is_abs_str(path@),
                    segs.take(n - 1 - i),
                ),
        decreases p.parts.len(),
    {
        let ghost o0 = out.deep_view();
        let ghost prev = p.segs();
        proof {
            assert(1 <= n - k <= segs.len());
        }
        let _dropped = p.parts.pop();
        proof {
            assert(p.segs() =~= prev.drop_last());
            assert(prev.drop_last() == segs.take(n - k).drop_last());
            assert(segs.take(n - k).drop_last() =~= segs.take(n - k - 1));
        }
        let rendered = render_path(p.absolute, &p.parts);
        out.push(rendered);
        proof {
            assert(out.deep_view() =~= o0.push(spec_render(is_abs_str(path@), segs.take(n - k
                - 1))));
        }
        k += 1;
    }
    out
}

/// From a directory, the route to a file beside it is the file's bare name:
/// when two stored paths share their parent components, the relative route
/// between them (the file itself included) is a single component.
pub proof fn lemma_relative_same_parent(to: RootPath, from: RootPath)
    requires
        to.path.segs().len() >= 1,
        from.path.segs().len() >= 1,
        from.path.segs().drop_last() == to.path.segs().drop_last(),
    ensures
        join_parts(
            spec_relative_parts(
                from.path.segs().drop_last(),
                to.path.segs().drop_last(),
                to.path.segs().last(),
            ),
            '/',
        ) == to.path.segs().last(),
{
    let d = from.path.segs().drop_last();
    lemma_lcp_refl(d);
    let parts = spec_relative_parts(d, d, to.path.segs().last());
    assert(parts =~= seq![to.path.segs().last()]);
}

proof fn lemma_lcp_refl(a: Seq<Seq<char>>)
    ensures
        lcp_len(a, a) == a.len(),
    decreases a.len(),
{
    if a.len() > 0 {
        lemma_lcp_refl(a.drop_first());
    }
}

/// The shape of a relative route: it climbs exactly as many steps as the
/// starting directory has components past the longest positional common
/// prefix `L` of the two directories, then descends along the remaining
/// components of the target directory, and ends with the target's file name.
pub proof fn lemma_relative_climb_count(
    from_dirs: Seq<Seq<char>>,
    to_dirs: Seq<Seq<char>>,
    name: Seq<char>,
)
    ensures
        ({
            let l = lcp_len(from_dirs, to_dirs) as int;
            let parts = spec_relative_parts(from_dirs, to_dirs, name);
            &&& l <= from_dirs.len() && l <= to_dirs.len()
            &&& parts.len() == (from_dirs.len() - l) + (to_dirs.len() - l) + 1
            &&& forall|i: int| 0 <= i < from_dirs.len() - l ==> parts[i] == ".."@
            &&& forall|i: int|
                from_dirs.len() - l <= i < parts.len() - 1 ==> parts[i] == to_dirs[i - (
                from_dirs.len() - l) + l]
            &&& parts.last() == name
        }),
{
    lemma_lcp_props(from_dirs, to_dirs);
}

/// What `address` stores never carries the base's own prefix again: the
/// stored path is either relative, or absolute without the base's components
/// in front.
pub proof fn lemma_address_never_keeps_base(
    base: Seq<Seq<char>>,
    abs: bool,
    segs: Seq<Seq<char>>,
)
    ensures
        ({
            let r = spec_address(base, abs, segs);
            !(r.0 && base.is_prefix_of(r.1))
        }),
{
    if abs && base.is_prefix_of(segs) {
        assert(!spec_address(base, abs, segs).0);
    }
}

/// A fresh vector holding the same strings.
pub fn copy_parts(v: &Vec<String>) -> (r: Vec<String>)
    ensures
        r.deep_view() == v.deep_view(),
{
    let mut r: Vec<String> = Vec::new();
    let mut i: usize = 0;
    while i < v.len()
        invariant
            i <= v.len(),
            r.deep_view() == v.deep_view().take(i as int),
        decreases v.len() - i,
    {
        let ghost r0 = r.deep_view();
        let item = v[i].clone();
        proof {
            assert(item@ == v.deep_view()[i as int]);
        }
        r.push(item);
        proof {
            assert(r.deep_view() =~= r0.push(item@));
            assert(r0.push(item@) =~= v.deep_view().take(i + 1));
        }
        i += 1;
    }
    proof {
        assert(v.deep_view().take(v.deep_view().len() as int) =~= v.deep_view());
    }
    r
}

} // verus!
