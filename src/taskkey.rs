//! Task keys: phony names and file paths, as written and as resolved.

use vstd::prelude::*;

use crate::path::{dedot_of, join_spec, NormarizedPath};
use crate::text::{compare_str, has_char, lemma_lex_cmp_equal, lex_cmp};

verus! {

/// An ASCII letter.
pub open spec fn is_alpha(c: char) -> bool {
    ('a' <= c && c <= 'z') || ('A' <= c && c <= 'Z')
}

/// A character allowed after the first one of a phony name.
pub open spec fn is_name_char(c: char) -> bool {
    is_alpha(c) || ('0' <= c && c <= '9') || c == '_' || c == '-'
}

/// `s` matches `[A-Za-z][A-Za-z0-9_-]*`.
pub open spec fn is_phony_name(s: Seq<char>) -> bool {
    &&& s.len() > 0
    &&& is_alpha(s[0])
    &&& forall|i: int| 1 <= i < s.len() ==> is_name_char(#[trigger] s[i])
}

/// `s` names a file: it holds a `/` or a `.`.
pub open spec fn is_path_literal(s: Seq<char>) -> bool {
    s.contains('/') || s.contains('.')
}

/// Why `s` is not a phony name, when it is not.
pub open spec fn phony_fault(s: Seq<char>) -> PhonyNameFault {
    if s.len() == 0 {
        PhonyNameFault::Empty
    } else if !is_alpha(s[0]) {
        PhonyNameFault::FirstNotAlphabetic
    } else {
        PhonyNameFault::DisallowedCharacter
    }
}

/// The name of a phony task: a string matching `[A-Za-z][A-Za-z0-9_-]*`.
pub struct PhonyTaskString {
    inner: String,
}

impl View for PhonyTaskString {
    type V = Seq<char>;

    closed spec fn view(&self) -> Seq<char> {
        self.inner@
    }
}

impl Clone for PhonyTaskString {
    fn clone(&self) -> (r: Self)
        ensures
            r@ == self@,
    {
        PhonyTaskString { inner: self.inner.clone() }
    }
}

/// Why a string is not a phony task name.
#[derive(Debug, Clone, Copy, PartialEq, Eq, Structural)]
pub enum PhonyNameFault {
    /// The string is empty.
    Empty,
    /// The first character is not an ASCII letter.
    FirstNotAlphabetic,
    /// A later character is not a letter, digit, `_` or `-`.
    DisallowedCharacter,
}

/// The words for why a string is not a phony name.
pub open spec fn phony_fault_text(f: PhonyNameFault) -> Seq<char> {
    match f {
        PhonyNameFault::Empty => "empty string is not allowed"@,
        PhonyNameFault::FirstNotAlphabetic => "first character must be alphabetic"@,
        PhonyNameFault::DisallowedCharacter => "only /^[a-zA-Z][a-zA-Z0-9_-]*$/ is allowed"@,
    }
}

/// A string was refused as a phony task name.
#[derive(Debug, Clone, Copy, PartialEq, Eq, Structural)]
pub struct NotPhonyTaskString(pub PhonyNameFault);

impl NotPhonyTaskString {
    /// The reason, in words.
    pub fn message(&self) -> (r: &'static str)
        ensures
            r@ == phony_fault_text(self.0),
    {
        match self.0 {
            PhonyNameFault::Empty => "empty string is not allowed",
            PhonyNameFault::FirstNotAlphabetic => "first character must be alphabetic",
            PhonyNameFault::DisallowedCharacter => "only /^[a-zA-Z][a-zA-Z0-9_-]*$/ is allowed",
        }
    }
}

fn is_alpha_exec(c: char) -> (r: bool)
    ensures
        r == is_alpha(c),
{
    ('a' <= c && c <= 'z') || ('A' <= c && c <= 'Z')
}

impl PhonyTaskString {
    /// Accepts `value` as a phony task name.
    pub fn try_from(value: String) -> (r: Result<Self, NotPhonyTaskString>)
        ensures
            match r {
                Ok(p) => p@ == value@ && is_phony_name(value@),
                Err(e) => !is_phony_name(value@) && e.0 == phony_fault(value@),
            },
    {
        let n = value.as_str().unicode_len();
        if n == 0 {
            return Err(NotPhonyTaskString(PhonyNameFault::Empty));
        }
        if !is_alpha_exec(value.as_str().get_char(0)) {
            return Err(NotPhonyTaskString(PhonyNameFault::FirstNotAlphabetic));
        }
        let mut i: usize = 1;
        while i < n
            invariant
                n == value@.len(),
                1 <= i <= n,
                is_alpha(value@[0]),
                forall|j: int| 1 <= j < i ==> is_name_char(#[trigger] value@[j]),
            decreases n - i,
        {
            let c = value.as_str().get_char(i);
            if !(is_alpha_exec(c) || ('0' <= c && c <= '9') || c == '_' || c == '-') {
                assert(!is_name_char(value@[i as int]));
                return Err(NotPhonyTaskString(PhonyNameFault::DisallowedCharacter));
            }
            i = i + 1;
        }
        Ok(PhonyTaskString { inner: value })
    }

    /// The name.
    pub fn as_str(&self) -> (r: &str)
        ensures
            r@ == self@,
    {
        self.inner.as_str()
    }
}

/// A file task literal as written: a string holding a `/` or a `.`.
pub struct PathTaskString {
    inner: String,
}

impl View for PathTaskString {
    type V = Seq<char>;

    closed spec fn view(&self) -> Seq<char> {
        self.inner@
    }
}

impl Clone for PathTaskString {
    fn clone(&self) -> (r: Self)
        ensures
            r@ == self@,
    {
        PathTaskString { inner: self.inner.clone() }
    }
}

/// Why a string is not a file task literal.
#[derive(Debug, Clone, Copy, PartialEq, Eq, Structural)]
pub enum PathLiteralFault {
    /// The string is empty.
    Empty,
    /// The string holds neither `/` nor `.`.
    NoSeparatorOrDot,
}

/// The words for why a string is not a file literal.
pub open spec fn path_fault_text(f: PathLiteralFault) -> Seq<char> {
    match f {
        PathLiteralFault::Empty => "empty string is not allowed"@,
        PathLiteralFault::NoSeparatorOrDot => "Path must contain '/' or '.'"@,
    }
}

/// A string was refused as a file task literal.
#[derive(Debug, Clone, Copy, PartialEq, Eq, Structural)]
pub struct NotPathTaskString(pub PathLiteralFault);

impl NotPathTaskString {
    /// The reason, in words.
    pub fn message(&self) -> (r: &'static str)
        ensures
            r@ == path_fault_text(self.0),
    {
        match self.0 {
            PathLiteralFault::Empty => "empty string is not allowed",
            PathLiteralFault::NoSeparatorOrDot => "Path must contain '/' or '.'",
        }
    }
}

impl PathTaskString {
    /// Accepts `value` as a file task literal.
    pub fn try_from(value: String) -> (r: Result<Self, NotPathTaskString>)
        ensures
            match r {
                Ok(p) => p@ == value@ && is_path_literal(value@),
                Err(e) => !is_path_literal(value@) && e.0 == (if value@.len() == 0 {
                    PathLiteralFault::Empty
                } else {
                    PathLiteralFault::NoSeparatorOrDot
                }),
            },
    {
        if value.as_str().unicode_len() == 0 {
            return Err(NotPathTaskString(PathLiteralFault::Empty));
        }
        if has_char(value.as_str(), '/') || has_char(value.as_str(), '.') {
            Ok(PathTaskString { inner: value })
        } else {
            Err(NotPathTaskString(PathLiteralFault::NoSeparatorOrDot))
        }
    }

    /// The literal.
    pub fn as_str(&self) -> (r: &str)
        ensures
            r@ == self@,
    {
        self.inner.as_str()
    }
}

/// A task key as written, before a file literal is resolved against a base
/// directory.
pub enum TaskKeyRelative {
    Phony(PhonyTaskString),
    File(PathTaskString),
}

/// What a written task key denotes: its kind and its text.
pub enum KeyText {
    Phony(Seq<char>),
    File(Seq<char>),
}

impl View for TaskKeyRelative {
    type V = KeyText;

    open spec fn view(&self) -> KeyText {
        match self {
            TaskKeyRelative::Phony(p) => KeyText::Phony(p@),
            TaskKeyRelative::File(f) => KeyText::File(f@),
        }
    }
}

impl Clone for TaskKeyRelative {
    fn clone(&self) -> (r: Self)
        ensures
            r@ == self@,
    {
        match self {
            TaskKeyRelative::Phony(p) => TaskKeyRelative::Phony(p.clone()),
            TaskKeyRelative::File(f) => TaskKeyRelative::File(f.clone()),
        }
    }
}

/// A string was refused as a task key.
#[derive(Debug, Clone, Copy, PartialEq, Eq, Structural)]
pub enum TaskKeyParseError {
    /// The string is empty.
    Empty,
    /// The string is not a phony name.
    Phony(NotPhonyTaskString),
    /// The string is not a file literal.
    Path(NotPathTaskString),
}

impl TaskKeyParseError {
    /// The error, in words.
    pub fn message(&self) -> (r: &'static str)
        ensures
            r@ == match self {
                TaskKeyParseError::Empty => "empty string is not allowed"@,
                TaskKeyParseError::Phony(e) => phony_fault_text(e.0),
                TaskKeyParseError::Path(e) => path_fault_text(e.0),
            },
    {
        match self {
            TaskKeyParseError::Empty => "empty string is not allowed",
            TaskKeyParseError::Phony(e) => e.message(),
            TaskKeyParseError::Path(e) => e.message(),
        }
    }
}

/// How a string reads as a task key: a file literal when it holds `/` or
/// `.`, else a phony name when it matches, else nothing.
pub open spec fn parse_key_spec(s: Seq<char>) -> Option<KeyText> {
    if s.len() == 0 {
        None
    } else if is_path_literal(s) {
        Some(KeyText::File(s))
    } else if is_phony_name(s) {
        Some(KeyText::Phony(s))
    } else {
        None
    }
}

/// The order of written keys: phony keys first, then by their text.
pub open spec fn key_text_cmp(a: KeyText, b: KeyText) -> core::cmp::Ordering {
    match (a, b) {
        (KeyText::Phony(_), KeyText::File(_)) => core::cmp::Ordering::Less,
        (KeyText::File(_), KeyText::Phony(_)) => core::cmp::Ordering::Greater,
        (KeyText::Phony(x), KeyText::Phony(y)) => lex_cmp(x, y),
        (KeyText::File(x), KeyText::File(y)) => lex_cmp(x, y),
    }
}

impl TaskKeyRelative {
    /// Reads `value` as a task key.
    pub fn try_from(value: String) -> (r: Result<Self, TaskKeyParseError>)
        ensures
            match r {
                Ok(k) => parse_key_spec(value@) == Some(k@),
                Err(e) => parse_key_spec(value@) is None && e == (if value@.len() == 0 {
                    TaskKeyParseError::Empty
                } else {
                    TaskKeyParseError::Phony(NotPhonyTaskString(phony_fault(value@)))
                }),
            },
    {
        if value.as_str().unicode_len() == 0 {
            return Err(TaskKeyParseError::Empty);
        }
        if has_char(value.as_str(), '/') || has_char(value.as_str(), '.') {
            match PathTaskString::try_from(value) {
                Ok(p) => Ok(TaskKeyRelative::File(p)),
                Err(e) => Err(TaskKeyParseError::Path(e)),
            }
        } else {
            match PhonyTaskString::try_from(value) {
                Ok(p) => Ok(TaskKeyRelative::Phony(p)),
                Err(e) => Err(TaskKeyParseError::Phony(e)),
            }
        }
    }

    /// Compares two written keys: phony keys first, then by their text.
    pub fn cmp(&self, other: &Self) -> (r: core::cmp::Ordering)
        ensures
            r == key_text_cmp(self@, other@),
    {
        match (self, other) {
            (TaskKeyRelative::Phony(_), TaskKeyRelative::File(_)) => core::cmp::Ordering::Less,
            (TaskKeyRelative::File(_), TaskKeyRelative::Phony(_)) => core::cmp::Ordering::Greater,
            (TaskKeyRelative::Phony(a), TaskKeyRelative::Phony(b)) => compare_str(
                a.as_str(),
                b.as_str(),
            ),
            (TaskKeyRelative::File(a), TaskKeyRelative::File(b)) => compare_str(
                a.as_str(),
                b.as_str(),
            ),
        }
    }

    /// The key this denotes when written in directory `base`, leaving this
    /// one as it is.
    pub fn as_task_key(&self, base: &NormarizedPath) -> (r: TaskKey)
        ensures
            r@ == key_of(self@, base@),
    {
        self.clone().into_task_key(base)
    }

    /// The key this denotes when written in directory `base`: a phony name
    /// stays as it is, a file literal is resolved against `base`.
    pub fn into_task_key(self, base: &NormarizedPath) -> (r: TaskKey)
        ensures
            r@ == key_of(self@, base@),
    {
        match self {
            TaskKeyRelative::Phony(p) => TaskKey::Phony(p),
            TaskKeyRelative::File(f) => TaskKey::File(base.resolve(f.as_str())),
        }
    }
}

/// What a written key denotes in directory `base`.
pub open spec fn key_of(k: KeyText, base: Seq<char>) -> KeyText {
    match k {
        KeyText::Phony(n) => KeyText::Phony(n),
        KeyText::File(p) => KeyText::File(dedot_of(join_spec(base, p))),
    }
}

/// The identity of a task: a phony name, or a normalised file path.
pub enum TaskKey {
    Phony(PhonyTaskString),
    File(NormarizedPath),
}

impl View for TaskKey {
    type V = KeyText;

    open spec fn view(&self) -> KeyText {
        match self {
            TaskKey::Phony(p) => KeyText::Phony(p@),
            TaskKey::File(f) => KeyText::File(f@),
        }
    }
}

impl Clone for TaskKey {
    fn clone(&self) -> (r: Self)
        ensures
            r@ == self@,
    {
        match self {
            TaskKey::Phony(p) => TaskKey::Phony(p.clone()),
            TaskKey::File(f) => TaskKey::File(f.clone()),
        }
    }
}

impl TaskKey {
    /// The string form: the name of a phony key, the absolute path of a file
    /// key.
    pub fn as_str(&self) -> (r: &str)
        ensures
            r@ == match self@ {
                KeyText::Phony(n) => n,
                KeyText::File(p) => p,
            },
    {
        match self {
            TaskKey::Phony(p) => p.as_str(),
            TaskKey::File(f) => f.as_abs_str(),
        }
    }

    /// Whether two keys are the same task.
    pub fn same_key(&self, other: &TaskKey) -> (r: bool)
        ensures
            r == (self@ == other@),
    {
        match (self, other) {
            (TaskKey::Phony(a), TaskKey::Phony(b)) => {
                let r = compare_str(a.as_str(), b.as_str());
                proof {
                    lemma_lex_cmp_equal(a@, b@);
                }
                match r {
                    core::cmp::Ordering::Equal => true,
                    _ => false,
                }
            },
            (TaskKey::File(a), TaskKey::File(b)) => a.same_path(b),
            _ => false,
        }
    }
}

} // verus!
