//! Normalised absolute paths and their short forms.

use path_dedot::ParseDot;
use vstd::prelude::*;

use crate::text::has_char;

verus! {

/// What `path_dedot` makes of a path: `.` segments dropped, each `..` taking
/// away the segment before it, repeated separators and a trailing one gone.
pub uninterp spec fn dedot_of(p: Seq<char>) -> Seq<char>;

/// The relative path from the second path to the first, as `pathdiff`
/// computes it, or nothing where none can be written.
pub uninterp spec fn relative_of(path: Seq<char>, base: Seq<char>) -> Option<Seq<char>>;

/// Relies on `path_dedot::ParseDot::parse_dot_from`: the lexical removal of
/// dot segments. The base it is given is never read for a path that starts
/// at the root.
#[verifier::external_body]
fn dedot(p: &str) -> (r: String)
    ensures
        r@ == dedot_of(p@),
{
    std::path::Path::new(p).parse_dot_from("/").to_string_lossy().into_owned()
}

/// Relies on `pathdiff::diff_paths`: the path that leads from `base` to
/// `path`, where one exists.
#[verifier::external_body]
fn diff_paths(path: &str, base: &str) -> (r: Option<String>)
    ensures
        match r {
            Some(s) => relative_of(path@, base@) == Some(s@),
            None => relative_of(path@, base@) is None,
        },
{
    match pathdiff::diff_paths(path, base) {
        Some(p) => Some(p.to_string_lossy().into_owned()),
        None => None,
    }
}

/// A path starts at the root.
pub open spec fn is_absolute(p: Seq<char>) -> bool {
    p.len() > 0 && p[0] == '/'
}

/// `rel` written onto `base`: a path that starts at the root stands alone,
/// any other is put after `base` with one separator between them.
pub open spec fn join_spec(base: Seq<char>, rel: Seq<char>) -> Seq<char> {
    if is_absolute(rel) {
        rel
    } else if base.len() > 0 && base.last() == '/' {
        base + rel
    } else {
        base + seq!['/'] + rel
    }
}

/// Position of the last `c` in `s`, or -1.
pub open spec fn last_index_of(s: Seq<char>, c: char) -> int
    decreases s.len(),
{
    if s.len() == 0 {
        -1
    } else if s.last() == c {
        s.len() - 1
    } else {
        last_index_of(s.drop_last(), c)
    }
}

/// The directory that holds `s`: everything before its last separator, the
/// root for a path directly under it, and nothing for the root itself.
pub open spec fn parent_spec(s: Seq<char>) -> Option<Seq<char>> {
    let i = last_index_of(s, '/');
    if s.len() <= 1 || i < 0 {
        None
    } else if i == 0 {
        Some(seq!['/'])
    } else {
        Some(s.take(i))
    }
}

/// The short form of `abs` seen from a directory, given the relative path
/// from it: `.` for the directory itself, `./name` for a bare name, the
/// relative path otherwise, and `abs` unless that form is strictly shorter.
pub open spec fn short_spec(abs: Seq<char>, rel: Option<Seq<char>>) -> Seq<char> {
    match rel {
        None => abs,
        Some(r) => {
            let s = if r.len() == 0 {
                seq!['.']
            } else if !r.contains('/') && !r.contains('.') {
                seq!['.', '/'] + r
            } else {
                r
            };
            if s.len() >= abs.len() {
                abs
            } else {
                s
            }
        },
    }
}

/// An absolute path with its dot segments removed.
pub struct NormarizedPath {
    abs: String,
}

impl View for NormarizedPath {
    type V = Seq<char>;

    closed spec fn view(&self) -> Seq<char> {
        self.abs@
    }
}

impl Clone for NormarizedPath {
    fn clone(&self) -> (r: Self)
        ensures
            r@ == self@,
    {
        NormarizedPath { abs: self.abs.clone() }
    }
}

fn last_slash(s: &str) -> (r: usize)
    requires
        last_index_of(s@, '/') >= 0,
    ensures
        r == last_index_of(s@, '/'),
{
    let n = s.unicode_len();
    let mut i: usize = n;
    assert(s@.take(n as int) =~= s@);
    while i > 0
        invariant
            n == s@.len(),
            i <= n,
            last_index_of(s@, '/') == last_index_of(s@.take(i as int), '/'),
        decreases i,
    {
        let c = s.get_char(i - 1);
        if c == '/' {
            return i - 1;
        }
        assert(s@.take(i as int).drop_last() =~= s@.take(i - 1));
        i = i - 1;
    }
    assert(s@.take(0).len() == 0);
    0
}

impl NormarizedPath {
    /// Normalises a path that starts at the root.
    pub fn from_absolute(p: &str) -> (r: Self)
        requires
            is_absolute(p@),
        ensures
            r@ == dedot_of(p@),
    {
        NormarizedPath { abs: dedot(p) }
    }

    /// Resolves `p` against this directory and normalises the result.
    pub fn resolve(&self, p: &str) -> (r: Self)
        ensures
            r@ == dedot_of(join_spec(self@, p@)),
    {
        let n = p.unicode_len();
        if n > 0 && p.get_char(0) == '/' {
            return NormarizedPath { abs: dedot(p) };
        }
        let m = self.abs.as_str().unicode_len();
        let mut joined = self.abs.clone();
        if !(m > 0 && self.abs.as_str().get_char(m - 1) == '/') {
            proof {
                reveal_strlit("/");
            }
            joined.append("/");
        }
        joined.append(p);
        proof {
            if !(m > 0 && self@.last() == '/') {
                assert(joined@ =~= self@ + seq!['/'] + p@);
            } else {
                assert(joined@ =~= self@ + p@);
            }
        }
        NormarizedPath { abs: dedot(joined.as_str()) }
    }

    /// The directory that holds this path; nothing for the root.
    pub fn into_parent(self) -> (r: Option<Self>)
        ensures
            match r {
                Some(q) => parent_spec(self@) == Some(q@),
                None => parent_spec(self@) is None,
            },
    {
        let s = self.abs.as_str();
        let n = s.unicode_len();
        if n <= 1 || !has_char(s, '/') {
            proof {
                if n > 1 {
                    lemma_last_index_absent(s@, '/');
                }
            }
            return None;
        }
        proof {
            lemma_last_index_present(s@, '/');
        }
        let i = last_slash(s);
        if i == 0 {
            proof {
                reveal_strlit("/");
            }
            let root = String::from_str("/");
            assert(root@ =~= seq!['/']);
            Some(NormarizedPath { abs: root })
        } else {
            let part = s.substring_char(0, i);
            Some(NormarizedPath { abs: String::from_str(part) })
        }
    }

    /// The short form of this path as seen from `cwd`.
    pub fn as_short_str(&self, cwd: &NormarizedPath) -> (r: String)
        ensures
            r@ == short_spec(self@, relative_of(self@, cwd@)),
    {
        let rel = diff_paths(self.abs.as_str(), cwd.abs.as_str());
        match rel {
            None => self.abs.clone(),
            Some(r) => {
                let rs = r.as_str();
                let short = if rs.unicode_len() == 0 {
                    proof {
                        reveal_strlit(".");
                    }
                    let d = String::from_str(".");
                    assert(d@ =~= seq!['.']);
                    d
                } else if !has_char(rs, '/') && !has_char(rs, '.') {
                    proof {
                        reveal_strlit("./");
                    }
                    let d = String::from_str("./");
                    let d = d.concat(rs);
                    assert(d@ =~= seq!['.', '/'] + r@);
                    d
                } else {
                    r.clone()
                };
                if short.as_str().unicode_len() >= self.abs.as_str().unicode_len() {
                    self.abs.clone()
                } else {
                    short
                }
            },
        }
    }

    /// The absolute form.
    pub fn as_abs_str(&self) -> (r: &str)
        ensures
            r@ == self@,
    {
        self.abs.as_str()
    }

    /// Whether two paths are the same.
    pub fn same_path(&self, other: &NormarizedPath) -> (r: bool)
        ensures
            r == (self@ == other@),
    {
        self.abs == other.abs
    }
}

proof fn lemma_last_index_absent(s: Seq<char>, c: char)
    requires
        !s.contains(c),
    ensures
        last_index_of(s, c) == -1,
    decreases s.len(),
{
    if s.len() > 0 {
        assert(s.last() == s[s.len() - 1]);
        assert forall|j: int| 0 <= j < s.drop_last().len() implies s.drop_last()[j] != c by {
            assert(s.drop_last()[j] == s[j]);
        }
        lemma_last_index_absent(s.drop_last(), c);
    }
}

proof fn lemma_last_index_present(s: Seq<char>, c: char)
    requires
        s.contains(c),
    ensures
        0 <= last_index_of(s, c) < s.len(),
        s[last_index_of(s, c)] == c,
    decreases s.len(),
{
    if s.last() != c {
        let j = choose|j: int| 0 <= j < s.len() && s[j] == c;
        assert(s.drop_last()[j] == c);
        lemma_last_index_present(s.drop_last(), c);
    }
}

} // verus!
