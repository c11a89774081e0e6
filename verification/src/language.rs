//! The languages that can be analysed, and how one is chosen for a repository.

use crate::model::{lemma_views_push, views};
use crate::paths::{extension_of, file_extension, is_excluded_path, path_is_excluded};
use crate::text::str_eq;
use vstd::prelude::*;

verus! {

/// A grammar, as the parser takes it.
#[verifier::external_type_specification]
#[verifier::external_body]
pub struct ExLanguage(tree_sitter::Language);

/// A language for which a grammar is at hand.
#[derive(Debug, Clone, Copy, PartialEq, Eq, Structural)]
pub enum DetectedLanguage {
    Go,
    Rust,
    Python,
    JavaScript,
}

impl DetectedLanguage {
    /// The display name of a language, as a character sequence.
    pub open spec fn name_text(self) -> Seq<char> {
        match self {
            DetectedLanguage::Go => "Go"@,
            DetectedLanguage::Rust => "Rust"@,
            DetectedLanguage::Python => "Python"@,
            DetectedLanguage::JavaScript => "JavaScript"@,
        }
    }

    /// The file extensions that count towards a language.
    pub open spec fn extension_texts(self) -> Seq<Seq<char>> {
        match self {
            DetectedLanguage::Go => seq!["go"@],
            DetectedLanguage::Rust => seq!["rs"@],
            DetectedLanguage::Python => seq!["py"@],
            DetectedLanguage::JavaScript => seq!["js"@, "jsx"@, "ts"@, "tsx"@],
        }
    }

    /// The display name of this language.
    pub fn name(&self) -> (out: &'static str)
        ensures
            out@ == self.name_text(),
    {
        match self {
            DetectedLanguage::Go => "Go",
            DetectedLanguage::Rust => "Rust",
            DetectedLanguage::Python => "Python",
            DetectedLanguage::JavaScript => "JavaScript",
        }
    }

    /// The grammar for this language. Stands for the `LANGUAGE` constant of
    /// the grammar crate of each language, turned into a
    /// `tree_sitter::Language`; nothing is claimed of the value.
    #[verifier::external_body]
    pub fn tree_sitter_language(&self) -> tree_sitter::Language {
        match self {
            DetectedLanguage::Go => tree_sitter_go::LANGUAGE.into(),
            DetectedLanguage::Rust => tree_sitter_rust::LANGUAGE.into(),
            DetectedLanguage::Python => tree_sitter_python::LANGUAGE.into(),
            DetectedLanguage::JavaScript => tree_sitter_javascript::LANGUAGE.into(),
        }
    }

    /// Whether files with the extension `extension` count towards this
    /// language.
    pub fn has_extension(&self, extension: &str) -> (yes: bool)
        ensures
            yes == self.extension_texts().contains(extension@),
    {
        let known = self.extensions();
        let mut i: usize = 0;
        while i < known.len()
            invariant
                i <= known.len(),
                known@.len() == self.extension_texts().len(),
                forall|k: int|
                    0 <= k < known@.len() ==> (#[trigger] known@[k])@ == self.extension_texts()[k],
                forall|k: int| 0 <= k < i ==> self.extension_texts()[k] != extension@,
            decreases known.len() - i,
        {
            if str_eq(known[i], extension) {
                assert(self.extension_texts()[i as int] == extension@);
                return true;
            }
            i += 1;
        }
        false
    }

    /// The file extensions of this language's source files.
    pub fn extensions(&self) -> (out: &'static [&'static str])
        ensures
            out@.len() == self.extension_texts().len(),
            forall|i: int| 0 <= i < out@.len() ==> (#[trigger] out@[i])@ == self.extension_texts()[i],
    {
        match self {
            DetectedLanguage::Go => &["go"],
            DetectedLanguage::Rust => &["rs"],
            DetectedLanguage::Python => &["py"],
            DetectedLanguage::JavaScript => &["js", "jsx", "ts", "tsx"],
        }
    }
}

/// Whether the file at `path` counts towards `language`: whether its
/// extension is one of the language's.
pub open spec fn counts_for(language: DetectedLanguage, path: Seq<char>) -> bool {
    match extension_of(path) {
        Some(extension) => language.extension_texts().contains(extension),
        None => false,
    }
}

/// How many of `paths` count towards `language`.
pub open spec fn count_for(paths: Seq<Seq<char>>, language: DetectedLanguage) -> nat
    decreases paths.len(),
{
    if paths.len() == 0 {
        0
    } else {
        count_for(paths.drop_last(), language) + if counts_for(language, paths.last()) {
            1nat
        } else {
            0nat
        }
    }
}

/// No more paths count than there are.
pub proof fn lemma_count_for_bound(paths: Seq<Seq<char>>, language: DetectedLanguage)
    ensures
        count_for(paths, language) <= paths.len(),
    decreases paths.len(),
{
    if paths.len() > 0 {
        lemma_count_for_bound(paths.drop_last(), language);
    }
}

/// The language towards which most of `paths` count. Of several with the
/// same count, Go comes before Rust, Rust before Python, and Python before
/// JavaScript. There is none where no path counts towards any.
pub open spec fn dominant_language(paths: Seq<Seq<char>>) -> Option<DetectedLanguage> {
    let go = count_for(paths, DetectedLanguage::Go);
    let rust = count_for(paths, DetectedLanguage::Rust);
    let python = count_for(paths, DetectedLanguage::Python);
    let javascript = count_for(paths, DetectedLanguage::JavaScript);
    if go == 0 && rust == 0 && python == 0 && javascript == 0 {
        None
    } else if go >= rust && go >= python && go >= javascript {
        Some(DetectedLanguage::Go)
    } else if rust >= python && rust >= javascript {
        Some(DetectedLanguage::Rust)
    } else if python >= javascript {
        Some(DetectedLanguage::Python)
    } else {
        Some(DetectedLanguage::JavaScript)
    }
}

/// Whether the file at `path` counts towards `language`.
pub fn path_counts_for(language: &DetectedLanguage, path: &str) -> (yes: bool)
    ensures
        yes == counts_for(*language, path@),
{
    match file_extension(path) {
        Some(extension) => language.has_extension(extension.as_str()),
        None => false,
    }
}

/// The language of a repository, chosen by the extensions of the paths
/// found in it: the one towards which most paths count.
pub fn detect_language(paths: &Vec<String>) -> (out: Option<DetectedLanguage>)
    ensures
        out == dominant_language(views(paths@)),
{
    let mut go: usize = 0;
    let mut rust: usize = 0;
    let mut python: usize = 0;
    let mut javascript: usize = 0;
    let mut i: usize = 0;
    assert(views(paths@).take(0) =~= Seq::<Seq<char>>::empty());
    while i < paths.len()
        invariant
            i <= paths.len(),
            go == count_for(views(paths@).take(i as int), DetectedLanguage::Go),
            rust == count_for(views(paths@).take(i as int), DetectedLanguage::Rust),
            python == count_for(views(paths@).take(i as int), DetectedLanguage::Python),
            javascript == count_for(views(paths@).take(i as int), DetectedLanguage::JavaScript),
        decreases paths.len() - i,
    {
        let ghost seen = views(paths@).take(i as int);
        proof {
            assert(views(paths@).take(i + 1).drop_last() =~= seen);
            assert(views(paths@).take(i + 1).last() == paths@[i as int]@);
            lemma_count_for_bound(seen, DetectedLanguage::Go);
            lemma_count_for_bound(seen, DetectedLanguage::Rust);
            lemma_count_for_bound(seen, DetectedLanguage::Python);
            lemma_count_for_bound(seen, DetectedLanguage::JavaScript);
        }
        let path = paths[i].as_str();
        if path_counts_for(&DetectedLanguage::Go, path) {
            go += 1;
        }
        if path_counts_for(&DetectedLanguage::Rust, path) {
            rust += 1;
        }
        if path_counts_for(&DetectedLanguage::Python, path) {
            python += 1;
        }
        if path_counts_for(&DetectedLanguage::JavaScript, path) {
            javascript += 1;
        }
        i += 1;
    }
    assert(views(paths@).take(i as int) =~= views(paths@));
    if go == 0 && rust == 0 && python == 0 && javascript == 0 {
        None
    } else if go >= rust && go >= python && go >= javascript {
        Some(DetectedLanguage::Go)
    } else if rust >= python && rust >= javascript {
        Some(DetectedLanguage::Rust)
    } else if python >= javascript {
        Some(DetectedLanguage::Python)
    } else {
        Some(DetectedLanguage::JavaScript)
    }
}

/// Whether the file at `path` is a source file of `language` that is read:
/// it has one of the language's extensions and lies in no directory that is
/// left out.
pub open spec fn is_source_path(path: Seq<char>, language: DetectedLanguage) -> bool {
    !path_is_excluded(path) && counts_for(language, path)
}

/// Those of `paths` that are source files of `language`, in order.
pub open spec fn source_paths(paths: Seq<Seq<char>>, language: DetectedLanguage) -> Seq<Seq<char>>
    decreases paths.len(),
{
    if paths.len() == 0 {
        Seq::empty()
    } else if is_source_path(paths.last(), language) {
        source_paths(paths.drop_last(), language).push(paths.last())
    } else {
        source_paths(paths.drop_last(), language)
    }
}

/// The source files of `lang` among the files `files` of a repository, in
/// the order in which they are given.
pub fn collect_source_files(files: &Vec<String>, lang: &DetectedLanguage) -> (out: Vec<String>)
    ensures
        views(out@) == source_paths(views(files@), *lang),
{
    let mut out: Vec<String> = Vec::new();
    let mut i: usize = 0;
    assert(views(files@).take(0) =~= Seq::<Seq<char>>::empty());
    assert(views(out@) =~= Seq::<Seq<char>>::empty());
    while i < files.len()
        invariant
            i <= files.len(),
            views(out@) == source_paths(views(files@).take(i as int), *lang),
        decreases files.len() - i,
    {
        proof {
            assert(views(files@).take(i + 1).drop_last() =~= views(files@).take(i as int));
            assert(views(files@).take(i + 1).last() == files@[i as int]@);
        }
        let path = files[i].as_str();
        if !is_excluded_path(path) && path_counts_for(lang, path) {
            let kept = files[i].clone();
            proof {
                lemma_views_push(out@, kept);
            }
            out.push(kept);
        }
        i += 1;
    }
    assert(views(files@).take(i as int) =~= views(files@));
    out
}

} // verus!
