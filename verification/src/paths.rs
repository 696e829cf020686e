//! File paths as the directory, the stem and the extension that output names are made of.
use crate::text::{decimal_of, lemma_decimal_injective};
use vstd::prelude::*;
use vstd::string::{StrSliceExecFns, StringExecFns};

verus! {

/// A file name: the stem, and the extension where there is one. `None` in place of a text stands
/// for one that is not Unicode.
#[derive(Clone, Debug, PartialEq, Eq)]
pub struct FileName {
    pub stem: Option<String>,
    pub extension: Option<Option<String>>,
}

/// A path: the file name, and what stands before it. A path without a file name (one that ends in
/// `..`, say) is all `parent`.
#[derive(Clone, Debug, PartialEq, Eq)]
pub struct FilePath {
    pub parent: String,
    pub name: Option<FileName>,
}

/// The parts of a file name: the stem, and the extension where there is one, `None` in place of
/// a text that is not Unicode.
pub type NameParts = (Option<Seq<char>>, Option<Option<Seq<char>>>);

/// The parts of a path: what stands before the file name, and the parts of the file name where
/// there is one.
pub type PathParts = (Seq<char>, Option<NameParts>);

/// What a text that may not be Unicode holds.
pub open spec fn text_of(s: Option<String>) -> Option<Seq<char>> {
    match s {
        Some(s) => Some(s@),
        None => None,
    }
}

impl View for FileName {
    type V = NameParts;

    open spec fn view(&self) -> Self::V {
        (
            text_of(self.stem),
            match self.extension {
                Some(e) => Some(text_of(e)),
                None => None,
            },
        )
    }
}

impl View for FilePath {
    type V = PathParts;

    open spec fn view(&self) -> Self::V {
        (
            self.parent@,
            match self.name {
                Some(n) => Some(n@),
                None => None,
            },
        )
    }
}

/// The place of the last dot among the first `upto` characters, or -1.
pub open spec fn last_dot(s: Seq<char>, upto: int) -> int
    decreases upto,
{
    if upto <= 0 {
        -1
    } else if s[upto - 1] == '.' {
        upto - 1
    } else {
        last_dot(s, upto - 1)
    }
}

/// The parts of a file name: it is parted at its last dot, unless that is its first character.
pub open spec fn parsed(s: Seq<char>) -> NameParts {
    let d = last_dot(s, s.len() as int);
    if d <= 0 {
        (Some(s), None)
    } else {
        (Some(s.subrange(0, d)), Some(Some(s.subrange(d + 1, s.len() as int))))
    }
}

/// The text of a file name, if all of it is Unicode.
pub open spec fn rendered(name: NameParts) -> Option<Seq<char>> {
    match name {
        (Some(stem), None) => Some(stem),
        (Some(stem), Some(Some(ext))) => Some(stem + seq!['.'] + ext),
        _ => None,
    }
}

/// Where the last dot is.
pub proof fn lemma_last_dot(s: Seq<char>, upto: int)
    requires
        0 <= upto <= s.len(),
    ensures
        -1 <= last_dot(s, upto) < upto || (upto == 0 && last_dot(s, upto) == -1),
        last_dot(s, upto) >= 0 ==> s[last_dot(s, upto)] == '.',
        forall|i: int| last_dot(s, upto) < i < upto ==> s[i] != '.',
    decreases upto,
{
    if upto > 0 && s[upto - 1] != '.' {
        lemma_last_dot(s, upto - 1);
    }
}

/// Parting a file name loses nothing.
pub proof fn lemma_parsed_rendered(s: Seq<char>)
    ensures
        rendered(parsed(s)) == Some(s),
{
    lemma_last_dot(s, s.len() as int);
    let d = last_dot(s, s.len() as int);
    if d > 0 {
        assert(s.subrange(0, d) + seq!['.'] + s.subrange(d + 1, s.len() as int) =~= s);
    }
}

/// The extension of a file name holds no dot, and its stem is not empty unless the name is.
pub proof fn law_parsed_parts(s: Seq<char>)
    requires
        s.len() > 0,
    ensures
        parsed(s).0 matches Some(stem) && stem.len() > 0,
        parsed(s).1 matches Some(Some(ext)) ==> forall|i: int|
            0 <= i < ext.len() ==> ext[i] != '.',
{
    lemma_last_dot(s, s.len() as int);
}

/// A stem that is not empty and an extension without a dot are found again in the file name made
/// of them.
pub proof fn law_parts_are_found_again(stem: Seq<char>, ext: Seq<char>)
    requires
        stem.len() > 0,
        forall|i: int| 0 <= i < ext.len() ==> ext[i] != '.',
    ensures
        parsed(stem + seq!['.'] + ext) == (Some(stem), Some(Some(ext))),
{
    let s = stem + seq!['.'] + ext;
    lemma_last_dot(s, s.len() as int);
    let d = last_dot(s, s.len() as int);
    assert(s[stem.len() as int] == '.');
    assert(d == stem.len()) by {
        if d > stem.len() {
            assert(s[d] == ext[d - stem.len() - 1]);
        }
    }
    assert(s.subrange(0, d) =~= stem);
    assert(s.subrange(d + 1, s.len() as int) =~= ext);
}

impl FileName {
    /// Part a file name into stem and extension: the extension is what follows the last dot. A
    /// name with no dot, or with none but its first character, has no extension.
    pub fn parse(text: &str) -> (name: FileName)
        ensures
            name@ == parsed(text@),
    {
        let n: usize = text.unicode_len();
        let mut d: usize = n;
        while d > 0 && text.get_char(d - 1) != '.'
            invariant
                d <= n == text@.len(),
                last_dot(text@, n as int) == last_dot(text@, d as int),
            decreases d,
        {
            d = d - 1;
        }
        if d <= 1 {
            return FileName { stem: Some(text.to_owned()), extension: None };
        }
        let stem = text.substring_char(0, d - 1).to_owned();
        let ext = text.substring_char(d, n).to_owned();
        FileName { stem: Some(stem), extension: Some(Some(ext)) }
    }

    /// The text of the file name, unless a part of it is not Unicode.
    pub fn text(&self) -> (r: Option<String>)
        ensures
            text_of(r) == rendered(self@),
    {
        proof {
            reveal_strlit(".");
        }
        match &self.stem {
            Some(stem) => match &self.extension {
                None => Some(stem.clone()),
                Some(Some(ext)) => {
                    let mut s = stem.clone();
                    s.append(".");
                    s.append(ext.as_str());
                    assert("."@ =~= seq!['.']);
                    Some(s)
                },
                Some(None) => None,
            },
            None => None,
        }
    }
}

/// The text of the stem, `output` where the path has none that is Unicode.
pub open spec fn stem_or_output(path: PathParts) -> Seq<char> {
    match path.1 {
        Some((Some(stem), _)) => stem,
        _ => "output"@,
    }
}

/// The text of the extension, if there is one that is Unicode.
pub open spec fn extension_text(path: PathParts) -> Option<Seq<char>> {
    match path.1 {
        Some((_, Some(Some(ext)))) => Some(ext),
        _ => None,
    }
}

/// A stem with `suffix` behind it, then the extension, if there is one, behind a dot.
pub open spec fn suffixed(stem: Seq<char>, suffix: Seq<char>, ext: Option<Seq<char>>) -> Seq<char> {
    match ext {
        Some(ext) => stem + suffix + seq!['.'] + ext,
        None => stem + suffix,
    }
}

/// The parts of `path` with `suffix` inserted before its extension.
pub open spec fn suffixed_parts(path: PathParts, suffix: Seq<char>) -> PathParts {
    (path.0, Some(parsed(suffixed(stem_or_output(path), suffix, extension_text(path)))))
}

/// Insert `suffix` before the file extension of `path`.
pub fn suffixed_path(path: &FilePath, suffix: &str) -> (out: FilePath)
    ensures
        out@ == suffixed_parts(path@, suffix@),
{
    proof {
        reveal_strlit(".");
    }
    let mut text = match &path.name {
        Some(FileName { stem: Some(stem), .. }) => stem.clone(),
        _ => "output".to_owned(),
    };
    text.append(suffix);
    match &path.name {
        Some(FileName { extension: Some(Some(ext)), .. }) => {
            text.append(".");
            text.append(ext.as_str());
            assert("."@ =~= seq!['.']);
        },
        _ => {},
    }
    assert(text@ =~= suffixed(stem_or_output(path@), suffix@, extension_text(path@)));
    FilePath { parent: path.parent.clone(), name: Some(FileName::parse(text.as_str())) }
}

impl FilePath {
    /// Whether the path has a file name with an extension.
    pub fn has_extension(&self) -> (r: bool)
        ensures
            r == (self@.1 matches Some((_, Some(_)))),
    {
        match &self.name {
            Some(FileName { extension: Some(_), .. }) => true,
            _ => false,
        }
    }

    /// Give the file name the extension `ext`, in place of the one it has if it has one. A path
    /// without a file name stays as it is.
    pub fn set_extension(&mut self, ext: &str)
        ensures
            final(self)@ == with_extension(old(self)@, ext@),
    {
        let parent = self.parent.clone();
        let name = match &self.name {
            Some(n) => {
                let stem = match &n.stem {
                    Some(s) => Some(s.clone()),
                    None => None,
                };
                Some(FileName { stem, extension: Some(Some(ext.to_owned())) })
            },
            None => None,
        };
        *self = FilePath { parent, name };
    }

    /// A copy of the path.
    pub fn copy(&self) -> (r: FilePath)
        ensures
            r@ == self@,
    {
        let name = match &self.name {
            Some(n) => {
                let stem = match &n.stem {
                    Some(s) => Some(s.clone()),
                    None => None,
                };
                let extension = match &n.extension {
                    Some(Some(e)) => Some(Some(e.clone())),
                    Some(None) => Some(None),
                    None => None,
                };
                Some(FileName { stem, extension })
            },
            None => None,
        };
        FilePath { parent: self.parent.clone(), name }
    }
}

/// A path with the extension `ext` in place of its own.
pub open spec fn with_extension(path: PathParts, ext: Seq<char>) -> PathParts {
    match path.1 {
        Some((stem, _)) => (path.0, Some((stem, Some(Some(ext))))),
        None => path,
    }
}

/// The suffixes that number the objects of one file give different file names.
pub proof fn lemma_numbered_differ(stem: Seq<char>, ext: Option<Seq<char>>, i: int, j: int)
    requires
        0 <= i,
        0 <= j,
        i != j,
    ensures
        suffixed(stem, "_"@ + decimal_of(i), ext) != suffixed(stem, "_"@ + decimal_of(j), ext),
{
    let (a, b) = (suffixed(stem, "_"@ + decimal_of(i), ext), suffixed(stem, "_"@ + decimal_of(j), ext));
    if a == b {
        let lead = stem.len() + "_"@.len();
        let tail = match ext {
            Some(e) => 1 + e.len(),
            None => 0,
        };
        assert(a.len() == lead + decimal_of(i).len() + tail);
        assert(b.len() == lead + decimal_of(j).len() + tail);
        assert(a.subrange(lead as int, a.len() - tail) =~= decimal_of(i));
        assert(b.subrange(lead as int, b.len() - tail) =~= decimal_of(j));
        lemma_decimal_injective(i, j);
    }
}

} // verus!
