//! A whole repository: from the files found on disk to its entity graph and
//! summary.

use crate::extract::{
    extract_entities_generic, extract_entities_go, generic_entities, get_go_package, go_entities,
    go_package,
};
use crate::imports::{
    get_go_module_name, go_imports, import_dirs, module_name, parse_go_imports, resolve_imports,
};
use crate::language::{
    collect_source_files, detect_language, dominant_language, source_paths, DetectedLanguage,
};
use crate::model::{
    lemma_views_push, views, Entity, EntityGraph, EntityView, GraphView, Relation, RelationView,
};
use crate::paths::{dir_of, file_dir, relative_path, relative_to};
use crate::resolve::{
    edges_ok, extract_references, file_references, leads_from_one_of, lemma_file_references_ok,
    Scope,
};
use crate::syntax::{parse_file, parsed_tree};
use crate::table::{names_of, NameIndex, TextMap};
use crate::text::{decimal, decimal_text, str_eq, str_lt, text_lt};
use vstd::prelude::*;
use vstd::slice::slice_subrange;
use vstd::string::StringExecFns;

verus! {

broadcast use vstd::string::group_string_axioms;

/// One line of a repository's summary: a label, a value, and where the
/// value leads, if anywhere.
#[derive(Debug, Clone)]
pub struct RepoAttribute {
    pub label: String,
    pub value: String,
    pub link: Option<String>,
}

/// The mathematical content of a [`RepoAttribute`].
pub struct RepoAttributeView {
    pub label: Seq<char>,
    pub value: Seq<char>,
    pub link: Option<Seq<char>>,
}

/// The text of `text`, if there is one.
pub open spec fn optional_text(text: Option<String>) -> Option<Seq<char>> {
    match text {
        Some(t) => Some(t@),
        None => None,
    }
}

/// The texts of `items`, in order.
pub open spec fn optional_texts(items: Seq<Option<String>>) -> Seq<Option<Seq<char>>> {
    Seq::new(items.len(), |i: int| optional_text(items[i]))
}

impl View for RepoAttribute {
    type V = RepoAttributeView;

    open spec fn view(&self) -> RepoAttributeView {
        RepoAttributeView { label: self.label@, value: self.value@, link: optional_text(self.link) }
    }
}

/// The summary of a repository.
#[derive(Debug, Clone)]
pub struct RepoInfo {
    pub path: String,
    pub name: String,
    pub language: String,
    /// How many source files of the language were taken in: read and
    /// parsed. A file that is skipped is not counted.
    pub total_files: usize,
    pub total_entities: usize,
    pub packages: Vec<String>,
    pub module_name: String,
    pub attributes: Vec<RepoAttribute>,
}

/// The mathematical content of a [`RepoInfo`].
pub struct RepoInfoView {
    pub path: Seq<char>,
    pub name: Seq<char>,
    pub language: Seq<char>,
    pub total_files: nat,
    pub total_entities: nat,
    pub packages: Seq<Seq<char>>,
    pub module_name: Seq<char>,
    pub attributes: Seq<RepoAttributeView>,
}

impl View for RepoInfo {
    type V = RepoInfoView;

    open spec fn view(&self) -> RepoInfoView {
        RepoInfoView {
            path: self.path@,
            name: self.name@,
            language: self.language@,
            total_files: self.total_files as nat,
            total_entities: self.total_entities as nat,
            packages: views(self.packages@),
            module_name: self.module_name@,
            attributes: views(self.attributes@),
        }
    }
}

/// A copy of `items` with the same content.
pub fn duplicate_texts(items: &Vec<String>) -> (out: Vec<String>)
    ensures
        views(out@) == views(items@),
{
    let mut out: Vec<String> = Vec::new();
    let mut i: usize = 0;
    assert(views(out@) =~= views(items@).take(0));
    while i < items.len()
        invariant
            i <= items.len(),
            views(out@) == views(items@).take(i as int),
        decreases items.len() - i,
    {
        let item = items[i].clone();
        proof {
            lemma_views_push(out@, item);
            assert(views(items@).take(i + 1) =~= views(items@).take(i as int).push(
                items@[i as int]@,
            ));
        }
        out.push(item);
        i += 1;
    }
    assert(views(items@).take(i as int) =~= views(items@));
    out
}

impl RepoAttribute {
    /// A copy with the same content.
    pub fn duplicate(&self) -> (out: RepoAttribute)
        ensures
            out@ == self@,
    {
        RepoAttribute {
            label: self.label.clone(),
            value: self.value.clone(),
            link: match &self.link {
                Some(l) => Some(l.clone()),
                None => None,
            },
        }
    }
}

impl RepoInfo {
    /// A copy with the same content.
    pub fn duplicate(&self) -> (out: RepoInfo)
        ensures
            out@ == self@,
    {
        let mut attributes: Vec<RepoAttribute> = Vec::new();
        let mut i: usize = 0;
        assert(views(attributes@) =~= views(self.attributes@).take(0));
        while i < self.attributes.len()
            invariant
                i <= self.attributes.len(),
                views(attributes@) == views(self.attributes@).take(i as int),
            decreases self.attributes.len() - i,
        {
            let item = self.attributes[i].duplicate();
            proof {
                lemma_views_push(attributes@, item);
                assert(views(self.attributes@).take(i + 1) =~= views(self.attributes@).take(
                    i as int,
                ).push(self.attributes@[i as int]@));
            }
            attributes.push(item);
            i += 1;
        }
        assert(views(self.attributes@).take(i as int) =~= views(self.attributes@));
        RepoInfo {
            path: self.path.clone(),
            name: self.name.clone(),
            language: self.language.clone(),
            total_files: self.total_files,
            total_entities: self.total_entities,
            packages: duplicate_texts(&self.packages),
            module_name: self.module_name.clone(),
            attributes,
        }
    }
}

/// What was found on disk for one repository, as plain values.
#[derive(Debug, Clone)]
pub struct RepoSnapshot {
    /// The path of the repository, as it was given.
    pub root: String,
    /// The last segment of that path, if it has one.
    pub name: Option<String>,
    /// The text of the Go module manifest at the root, if one could be read.
    pub manifest: Option<String>,
    /// The path of the Go module manifest, if there is one.
    pub manifest_path: Option<String>,
    /// Every path found down to the fifth level below the root.
    pub survey: Vec<String>,
    /// The path of every regular file below the root.
    pub files: Vec<String>,
    /// The text of each source file of the repository's language, by its
    /// position among them; absent for a file that could not be read.
    pub sources: Vec<Option<String>>,
}

/// The mathematical content of a [`RepoSnapshot`].
pub struct SnapshotView {
    pub root: Seq<char>,
    pub name: Option<Seq<char>>,
    pub manifest: Option<Seq<char>>,
    pub manifest_path: Option<Seq<char>>,
    pub survey: Seq<Seq<char>>,
    pub files: Seq<Seq<char>>,
    pub sources: Seq<Option<Seq<char>>>,
}

impl View for RepoSnapshot {
    type V = SnapshotView;

    open spec fn view(&self) -> SnapshotView {
        SnapshotView {
            root: self.root@,
            name: optional_text(self.name),
            manifest: optional_text(self.manifest),
            manifest_path: optional_text(self.manifest_path),
            survey: views(self.survey@),
            files: views(self.files@),
            sources: optional_texts(self.sources@),
        }
    }
}

/// `labels` with `label` put in its place, unless it is there already.
pub open spec fn insert_label(labels: Seq<Seq<char>>, label: Seq<char>) -> Seq<Seq<char>>
    decreases labels.len(),
{
    if labels.len() == 0 {
        seq![label]
    } else if labels[0] == label {
        labels
    } else if text_lt(label, labels[0]) {
        seq![label] + labels
    } else {
        seq![labels[0]] + insert_label(labels.drop_first(), label)
    }
}

/// The distinct package labels of `entities`, sorted.
pub open spec fn package_labels(entities: Seq<EntityView>) -> Seq<Seq<char>>
    decreases entities.len(),
{
    if entities.len() == 0 {
        Seq::empty()
    } else {
        insert_label(package_labels(entities.drop_last()), entities.last().package)
    }
}

/// Whether each label sorts before the next.
pub open spec fn labels_sorted(labels: Seq<Seq<char>>) -> bool {
    forall|i: int| 0 <= i < labels.len() - 1 ==> text_lt(#[trigger] labels[i], labels[i + 1])
}

/// Putting a label in its place keeps the labels sorted, and adds that
/// label to them and nothing else.
pub proof fn lemma_insert_label(labels: Seq<Seq<char>>, label: Seq<char>)
    requires
        labels_sorted(labels),
    ensures
        labels_sorted(insert_label(labels, label)),
        insert_label(labels, label).len() > 0,
        forall|x: Seq<char>|
            #[trigger] insert_label(labels, label).contains(x) <==> (labels.contains(x) || x
                == label),
        labels.len() > 0 ==> insert_label(labels, label)[0] == labels[0] || insert_label(
            labels,
            label,
        )[0] == label,
    decreases labels.len(),
{
    let after = insert_label(labels, label);
    if labels.len() == 0 {
        assert(after[0] == label);
        assert forall|x: Seq<char>| after.contains(x) <==> (labels.contains(x) || x == label) by {
            if x == label {
                assert(after[0] == x);
            }
        }
    } else if labels[0] == label {
        assert forall|x: Seq<char>| after.contains(x) <==> (labels.contains(x) || x == label) by {
            if x == label {
                assert(labels[0] == x);
            }
        }
    } else if text_lt(label, labels[0]) {
        assert forall|i: int| 0 <= i < after.len() - 1 implies text_lt(
            #[trigger] after[i],
            after[i + 1],
        ) by {
            if i > 0 {
                assert(after[i] == labels[i - 1]);
                assert(after[i + 1] == labels[i]);
            }
        }
        assert forall|x: Seq<char>| after.contains(x) <==> (labels.contains(x) || x == label) by {
            if x == label {
                assert(after[0] == x);
            }
            if labels.contains(x) {
                let k = choose|k: int| 0 <= k < labels.len() && labels[k] == x;
                assert(after[k + 1] == x);
            }
            if after.contains(x) {
                let k = choose|k: int| 0 <= k < after.len() && after[k] == x;
                if k > 0 {
                    assert(labels[k - 1] == x);
                }
            }
        }
    } else {
        let rest = labels.drop_first();
        let tail = insert_label(rest, label);
        assert forall|i: int| 0 <= i < rest.len() - 1 implies text_lt(
            #[trigger] rest[i],
            rest[i + 1],
        ) by {
            assert(rest[i] == labels[i + 1]);
            assert(rest[i + 1] == labels[i + 2]);
        }
        lemma_insert_label(rest, label);
        crate::text::lemma_text_lt_total(label, labels[0]);
        assert(text_lt(labels[0], label));
        assert forall|i: int| 0 <= i < after.len() - 1 implies text_lt(
            #[trigger] after[i],
            after[i + 1],
        ) by {
            if i == 0 {
                assert(after[1] == tail[0]);
                if rest.len() > 0 && tail[0] == rest[0] {
                    assert(rest[0] == labels[1]);
                }
            } else {
                assert(after[i] == tail[i - 1]);
                assert(after[i + 1] == tail[i]);
            }
        }
        assert forall|x: Seq<char>| after.contains(x) <==> (labels.contains(x) || x == label) by {
            if after.contains(x) {
                let k = choose|k: int| 0 <= k < after.len() && after[k] == x;
                if k > 0 {
                    assert(tail[k - 1] == x);
                    assert(tail.contains(x));
                    if rest.contains(x) {
                        let r = choose|r: int| 0 <= r < rest.len() && rest[r] == x;
                        assert(labels[r + 1] == x);
                    }
                } else {
                    assert(labels[0] == x);
                }
            }
            if labels.contains(x) {
                let k = choose|k: int| 0 <= k < labels.len() && labels[k] == x;
                if k > 0 {
                    assert(rest[k - 1] == x);
                    assert(rest.contains(x));
                    assert(tail.contains(x));
                    let t = choose|t: int| 0 <= t < tail.len() && tail[t] == x;
                    assert(after[t + 1] == x);
                } else {
                    assert(after[0] == x);
                }
            }
            if x == label {
                assert(tail.contains(x));
                let t = choose|t: int| 0 <= t < tail.len() && tail[t] == x;
                assert(after[t + 1] == x);
            }
        }
    }
}

/// In sorted labels, each label sorts before every later one, so that none
/// occurs twice.
pub proof fn lemma_labels_sorted(labels: Seq<Seq<char>>, i: int, j: int)
    requires
        labels_sorted(labels),
        0 <= i < j < labels.len(),
    ensures
        text_lt(labels[i], labels[j]),
        labels[i] != labels[j],
    decreases j - i,
{
    if i + 1 < j {
        lemma_labels_sorted(labels, i, j - 1);
        assert(text_lt(labels[j - 1], labels[j]));
        crate::text::lemma_text_lt_transitive(labels[i], labels[j - 1], labels[j]);
    }
    crate::text::lemma_text_lt_total(labels[i], labels[j]);
}

/// The package labels of a graph are sorted, each sorting before the next;
/// and they are the packages of its entities, all of them and nothing
/// else.
pub proof fn lemma_package_labels(entities: Seq<EntityView>)
    ensures
        labels_sorted(package_labels(entities)),
        forall|x: Seq<char>|
            #[trigger] package_labels(entities).contains(x) <==> exists|i: int|
                0 <= i < entities.len() && (#[trigger] entities[i]).package == x,
    decreases entities.len(),
{
    if entities.len() > 0 {
        let rest = entities.drop_last();
        lemma_package_labels(rest);
        lemma_insert_label(package_labels(rest), entities.last().package);
        assert forall|x: Seq<char>|
            package_labels(entities).contains(x) <==> exists|i: int|
                0 <= i < entities.len() && (#[trigger] entities[i]).package == x by {
            if package_labels(rest).contains(x) {
                let i = choose|i: int| 0 <= i < rest.len() && (#[trigger] rest[i]).package == x;
                assert(entities[i].package == x);
            }
            if x == entities.last().package {
                assert(entities[entities.len() - 1].package == x);
            }
            if exists|i: int| 0 <= i < entities.len() && (#[trigger] entities[i]).package == x {
                let i = choose|i: int|
                    0 <= i < entities.len() && (#[trigger] entities[i]).package == x;
                if i < rest.len() {
                    assert(rest[i].package == x);
                }
            }
        }
    }
}

/// Puts `label` in its place among the sorted `labels`, unless it is there
/// already.
pub fn add_label(labels: &mut Vec<String>, label: &str)
    ensures
        views(final(labels)@) == insert_label(views(old(labels)@), label@),
{
    let ghost before = views(labels@);
    let mut i: usize = 0;
    assert(before.skip(0) =~= before);
    assert(before.take(0) + insert_label(before, label@) =~= insert_label(before, label@));
    while i < labels.len()
        invariant
            i <= labels.len(),
            before == views(labels@),
            before == views(old(labels)@),
            insert_label(before, label@) == before.take(i as int) + insert_label(
                before.skip(i as int),
                label@,
            ),
        decreases labels.len() - i,
    {
        let ghost rest = before.skip(i as int);
        assert(rest[0] == labels@[i as int]@);
        if str_eq(labels[i].as_str(), label) {
            assert(before.take(i as int) + rest =~= before);
            return ;
        }
        if str_lt(label, labels[i].as_str()) {
            labels.insert(i, String::from_str(label));
            assert(views(labels@) =~= before.take(i as int) + (seq![label@] + rest));
            return ;
        }
        assert(rest.drop_first() =~= before.skip(i + 1));
        assert(before.take(i as int) + (seq![rest[0]] + insert_label(rest.drop_first(), label@))
            =~= before.take(i + 1) + insert_label(before.skip(i + 1), label@));
        i += 1;
    }
    assert(before.take(i as int) =~= before);
    labels.push(String::from_str(label));
    assert(views(labels@) =~= before + seq![label@]);
}

/// The distinct package labels of `entities`, sorted.
pub fn collect_package_labels(entities: &Vec<Entity>) -> (labels: Vec<String>)
    ensures
        views(labels@) == package_labels(views(entities@)),
{
    let mut labels: Vec<String> = Vec::new();
    let mut i: usize = 0;
    assert(views(entities@).take(0) =~= Seq::<EntityView>::empty());
    assert(views(labels@) =~= Seq::<Seq<char>>::empty());
    while i < entities.len()
        invariant
            i <= entities.len(),
            views(labels@) == package_labels(views(entities@).take(i as int)),
        decreases entities.len() - i,
    {
        assert(views(entities@).take(i + 1).drop_last() =~= views(entities@).take(i as int));
        assert(views(entities@).take(i + 1).last() == entities@[i as int]@);
        add_label(&mut labels, entities[i].package.as_str());
        i += 1;
    }
    assert(views(entities@).take(i as int) =~= views(entities@));
    labels
}

/// The text of the source file at position `i`, if it could be read.
pub open spec fn source_at(repo: SnapshotView, i: int) -> Option<Seq<char>> {
    if 0 <= i < repo.sources.len() {
        repo.sources[i]
    } else {
        None
    }
}

/// Whether a file with the text `text` is taken in: whether it could be
/// read and the parser makes a syntax tree of it.
pub open spec fn gives_tree(language: DetectedLanguage, text: Option<Seq<char>>) -> bool {
    match text {
        Some(source) => parsed_tree(source, language) is Some,
        None => false,
    }
}

/// How many of the first `n` source files are taken in.
pub open spec fn parsed_upto(repo: SnapshotView, language: DetectedLanguage, n: int) -> nat
    decreases n,
{
    if n <= 0 {
        0
    } else {
        parsed_upto(repo, language, n - 1) + if gives_tree(language, source_at(repo, n - 1)) {
            1nat
        } else {
            0nat
        }
    }
}

/// The name under which a repository is shown.
pub open spec fn display_name(repo: SnapshotView) -> Seq<char> {
    match repo.name {
        Some(name) => name,
        None => "unknown"@,
    }
}

/// The module of a repository: for Go the module path, else the name under
/// which the repository is shown.
pub open spec fn repo_module(repo: SnapshotView, language: DetectedLanguage) -> Seq<char> {
    match language {
        DetectedLanguage::Go => module_name(repo.manifest, repo.name),
        _ => display_name(repo),
    }
}

/// The lines of a repository's summary: for Go the module, the number of
/// packages and, where there is one, the module manifest; else the
/// language and the numbers of files and packages.
pub open spec fn repo_attributes(
    repo: SnapshotView,
    language: DetectedLanguage,
    packages: nat,
    files: nat,
) -> Seq<RepoAttributeView> {
    match language {
        DetectedLanguage::Go => {
            let lines = seq![
                RepoAttributeView {
                    label: "Module"@,
                    value: module_name(repo.manifest, repo.name),
                    link: None,
                },
                RepoAttributeView { label: "Packages"@, value: decimal(packages), link: None },
            ];
            match repo.manifest_path {
                Some(path) => lines.push(
                    RepoAttributeView { label: "go.mod"@, value: "go.mod"@, link: Some(path) },
                ),
                None => lines,
            }
        },
        _ => seq![
            RepoAttributeView { label: "Language"@, value: language.name_text(), link: None },
            RepoAttributeView { label: "Files"@, value: decimal(files), link: None },
            RepoAttributeView { label: "Packages"@, value: decimal(packages), link: None },
        ],
    }
}

/// The summary of a repository of `language` with the graph `graph`. Its
/// files are the source files of the language that could be read and
/// parsed; a file that is skipped is not counted.
pub open spec fn repo_info(repo: SnapshotView, language: DetectedLanguage, graph: GraphView) -> RepoInfoView {
    let files = parsed_upto(repo, language, source_paths(repo.files, language).len() as int);
    let packages = package_labels(graph.entities);
    RepoInfoView {
        path: repo.root,
        name: display_name(repo),
        language: language.name_text(),
        total_files: files,
        total_entities: graph.entities.len(),
        packages,
        module_name: repo_module(repo, language),
        attributes: repo_attributes(repo, language, packages.len(), files),
    }
}

/// One line of a summary.
fn attribute(label: &str, value: String, link: Option<String>) -> (out: RepoAttribute)
    ensures
        out@ == (RepoAttributeView { label: label@, value: value@, link: optional_text(link) }),
{
    RepoAttribute { label: String::from_str(label), value, link }
}

/// The text of `text`, borrowed.
fn as_text(text: &Option<String>) -> (out: Option<&str>)
    ensures
        match out {
            Some(t) => optional_text(*text) == Some(t@),
            None => optional_text(*text) is None,
        },
{
    match text {
        Some(t) => Some(t.as_str()),
        None => None,
    }
}

/// The summary of the repository `repo` of language `lang` with the graph
/// `graph`, of whose source files `files` were taken in.
fn summarise(repo: &RepoSnapshot, lang: &DetectedLanguage, graph: &EntityGraph, files: usize) -> (info:
    RepoInfo)
    requires
        files == parsed_upto(repo@, *lang, source_paths(repo@.files, *lang).len() as int),
    ensures
        info@ == repo_info(repo@, *lang, graph@),
{
    let name = match &repo.name {
        Some(n) => n.clone(),
        None => String::from_str("unknown"),
    };
    let packages = collect_package_labels(&graph.entities);
    let mut attributes: Vec<RepoAttribute> = Vec::new();
    let module = match lang {
        DetectedLanguage::Go => {
            let module = get_go_module_name(as_text(&repo.manifest), as_text(&repo.name));
            attributes.push(attribute("Module", module.clone(), None));
            attributes.push(attribute("Packages", decimal_text(packages.len()), None));
            match &repo.manifest_path {
                Some(path) => {
                    attributes.push(
                        attribute("go.mod", String::from_str("go.mod"), Some(path.clone())),
                    );
                },
                None => {},
            }
            module
        },
        _ => {
            attributes.push(attribute("Language", String::from_str(lang.name()), None));
            attributes.push(attribute("Files", decimal_text(files), None));
            attributes.push(attribute("Packages", decimal_text(packages.len()), None));
            name.clone()
        },
    };
    assert(views(attributes@) =~= repo_attributes(
        repo@,
        *lang,
        package_labels(graph@.entities).len(),
        files as nat,
    ));
    RepoInfo {
        path: repo.root.clone(),
        name,
        language: String::from_str(lang.name()),
        total_files: files,
        total_entities: graph.entities.len(),
        packages,
        module_name: module,
        attributes,
    }
}

/// The text of the source file at position `i`, if it could be read.
fn source_text(repo: &RepoSnapshot, i: usize) -> (out: Option<&str>)
    ensures
        match out {
            Some(text) => source_at(repo@, i as int) == Some(text@),
            None => source_at(repo@, i as int) is None,
        },
{
    if i < repo.sources.len() {
        as_text(&repo.sources[i])
    } else {
        None
    }
}

/// How many source files of `lang` are taken in.
fn count_parsed(repo: &RepoSnapshot, lang: &DetectedLanguage) -> (n: usize)
    ensures
        n == parsed_upto(repo@, *lang, source_paths(repo@.files, *lang).len() as int),
{
    let paths = collect_source_files(&repo.files, lang);
    let mut n: usize = 0;
    let mut i: usize = 0;
    while i < paths.len()
        invariant
            i <= paths.len(),
            views(paths@) == source_paths(repo@.files, *lang),
            n == parsed_upto(repo@, *lang, i as int),
            n <= i,
        decreases paths.len() - i,
    {
        let parsed = match source_text(repo, i) {
            Some(source) => parse_file(source, lang).is_some(),
            None => false,
        };
        if parsed {
            n += 1;
        }
        i += 1;
    }
    n
}

/// The summary of the repository `repo` of language `lang` with the graph
/// `graph`. Each source file is parsed once more, to see whether it is
/// taken in.
pub fn build_repo_info(repo: &RepoSnapshot, lang: &DetectedLanguage, graph: &EntityGraph) -> (info:
    RepoInfo)
    ensures
        info@ == repo_info(repo@, *lang, graph@),
{
    let files = count_parsed(repo, lang);
    summarise(repo, lang, graph, files)
}

/// The entities that a file declares: none where it could not be read or
/// parsed.
pub open spec fn file_entities(language: DetectedLanguage, file: Seq<char>, text: Option<Seq<char>>) -> Seq<
    EntityView,
> {
    match text {
        Some(source) => match parsed_tree(source, language) {
            Some(nodes) => match language {
                DetectedLanguage::Go => go_entities(source, nodes, file, go_package(source, nodes)),
                _ => generic_entities(source, nodes, file, language),
            },
            None => Seq::empty(),
        },
        None => Seq::empty(),
    }
}

/// The path of the source file at position `i`, as seen from the root.
pub open spec fn source_file(repo: SnapshotView, language: DetectedLanguage, i: int) -> Seq<char> {
    relative_to(source_paths(repo.files, language)[i], repo.root)
}

/// The entities of the first `n` source files, file after file.
pub open spec fn entities_upto(repo: SnapshotView, language: DetectedLanguage, n: int) -> Seq<
    EntityView,
>
    decreases n,
{
    if n <= 0 {
        Seq::empty()
    } else {
        entities_upto(repo, language, n - 1) + file_entities(
            language,
            source_file(repo, language, n - 1),
            source_at(repo, n - 1),
        )
    }
}

/// The directory of each of `entities`, by id: the directory that holds
/// the entity's file. Where two entities share an id, the later one counts.
pub open spec fn entity_dirs(entities: Seq<EntityView>) -> Map<Seq<char>, Seq<char>>
    decreases entities.len(),
{
    if entities.len() == 0 {
        Map::empty()
    } else {
        entity_dirs(entities.drop_last()).insert(entities.last().id, dir_of(entities.last().file))
    }
}

/// The prefix under which the packages of the repository are imported:
/// for Go the module path, else nothing.
pub open spec fn import_root(repo: SnapshotView, language: DetectedLanguage) -> Seq<char> {
    match language {
        DetectedLanguage::Go => module_name(repo.manifest, repo.name),
        _ => Seq::empty(),
    }
}

/// What references in a file are resolved against.
pub open spec fn file_scope(
    repo: SnapshotView,
    language: DetectedLanguage,
    all: Seq<EntityView>,
    file: Seq<char>,
    source: Seq<char>,
    nodes: Seq<crate::syntax::NodeView>,
) -> Scope {
    Scope {
        source,
        caller_dir: dir_of(file),
        imports: match language {
            DetectedLanguage::Go => import_dirs(
                go_imports(source, nodes),
                import_root(repo, language),
            ),
            _ => Map::empty(),
        },
        names: names_of(all),
        dirs: entity_dirs(all),
    }
}

/// The references of the entities of one file, resolved against all
/// entities `all` of the repository.
pub open spec fn file_relations(
    repo: SnapshotView,
    language: DetectedLanguage,
    all: Seq<EntityView>,
    file: Seq<char>,
    text: Option<Seq<char>>,
) -> Seq<RelationView> {
    match text {
        Some(source) => match parsed_tree(source, language) {
            Some(nodes) => file_references(
                file_scope(repo, language, all, file, source, nodes),
                nodes,
                file_entities(language, file, text),
            ),
            None => Seq::empty(),
        },
        None => Seq::empty(),
    }
}

/// The references of the first `n` source files, file after file.
pub open spec fn relations_upto(
    repo: SnapshotView,
    language: DetectedLanguage,
    all: Seq<EntityView>,
    n: int,
) -> Seq<RelationView>
    decreases n,
{
    if n <= 0 {
        Seq::empty()
    } else {
        relations_upto(repo, language, all, n - 1) + file_relations(
            repo,
            language,
            all,
            source_file(repo, language, n - 1),
            source_at(repo, n - 1),
        )
    }
}

/// The graph of a repository of `language`: the entities of all its source
/// files, and their references, resolved once all entities are known.
pub open spec fn repo_graph(repo: SnapshotView, language: DetectedLanguage) -> GraphView {
    let n = source_paths(repo.files, language).len() as int;
    let all = entities_upto(repo, language, n);
    GraphView { entities: all, relations: relations_upto(repo, language, all, n) }
}

/// The summary and the graph of a repository; nothing where no language is
/// found for it.
pub open spec fn parsed_repo(repo: SnapshotView) -> Option<(RepoInfoView, GraphView)> {
    match dominant_language(repo.survey) {
        Some(language) => Some(
            (repo_info(repo, language, repo_graph(repo, language)), repo_graph(repo, language)),
        ),
        None => None,
    }
}

/// The views of two lists, one after the other, are the views of the two
/// joined.
pub proof fn lemma_views_add<T: View>(a: Seq<T>, b: Seq<T>)
    ensures
        views(a + b) == views(a) + views(b),
{
    assert(views(a + b) =~= views(a) + views(b));
}

/// The entities of the first files come first among those of more files.
pub proof fn lemma_entities_upto_prefix(
    repo: SnapshotView,
    language: DetectedLanguage,
    m: int,
    n: int,
)
    requires
        0 <= m <= n,
    ensures
        entities_upto(repo, language, m).is_prefix_of(entities_upto(repo, language, n)),
    decreases n - m,
{
    if m < n {
        lemma_entities_upto_prefix(repo, language, m, n - 1);
    }
}

/// The directory of each of `entities`, by id.
pub fn index_entity_dirs(entities: &Vec<Entity>) -> (dirs: TextMap)
    ensures
        dirs@ == entity_dirs(views(entities@)),
{
    let mut dirs = TextMap::new();
    let mut i: usize = 0;
    assert(views(entities@).take(0) =~= Seq::<EntityView>::empty());
    while i < entities.len()
        invariant
            i <= entities.len(),
            dirs@ == entity_dirs(views(entities@).take(i as int)),
        decreases entities.len() - i,
    {
        assert(views(entities@).take(i + 1).drop_last() =~= views(entities@).take(i as int));
        assert(views(entities@).take(i + 1).last() == entities@[i as int]@);
        dirs.insert(entities[i].id.clone(), file_dir(entities[i].file.as_str()));
        i += 1;
    }
    assert(views(entities@).take(i as int) =~= views(entities@));
    dirs
}

/// The entities that the file `file` with the text `source` declares;
/// nothing where the parser makes no syntax tree of the text.
fn extract_file_entities(source: &str, file: &str, lang: &DetectedLanguage) -> (out: Option<
    Vec<Entity>,
>)
    ensures
        out is Some <==> gives_tree(*lang, Some(source@)),
        out matches Some(found) ==> views(found@) == file_entities(*lang, file@, Some(source@)),
{
    match parse_file(source, lang) {
        Some(tree) => Some(
            match lang {
                DetectedLanguage::Go => {
                    let package = get_go_package(source, &tree);
                    extract_entities_go(source, &tree, file, package.as_str())
                },
                _ => extract_entities_generic(source, &tree, file, lang),
            },
        ),
        None => None,
    }
}

/// The references of the entities `entities` of the file `file` with the
/// text `source`.
fn extract_file_relations(
    source: &str,
    file: &str,
    entities: &[Entity],
    lang: &DetectedLanguage,
    import_root: &str,
    names: &NameIndex,
    dirs: &TextMap,
) -> (out: Vec<Relation>)
    ensures
        match parsed_tree(source@, *lang) {
            Some(nodes) => views(out@) == file_references(
                Scope {
                    source: source@,
                    caller_dir: dir_of(file@),
                    imports: match *lang {
                        DetectedLanguage::Go => import_dirs(go_imports(source@, nodes), import_root@),
                        _ => Map::empty(),
                    },
                    names: names@,
                    dirs: dirs@,
                },
                nodes,
                views(entities@),
            ),
            None => views(out@) == Seq::<RelationView>::empty(),
        },
{
    match parse_file(source, lang) {
        Some(tree) => {
            let imports = match lang {
                DetectedLanguage::Go => {
                    let raw = parse_go_imports(source, &tree);
                    resolve_imports(&raw, import_root)
                },
                _ => TextMap::new(),
            };
            let caller_dir = file_dir(file);
            extract_references(
                source,
                &tree,
                entities,
                names,
                dirs,
                &imports,
                caller_dir.as_str(),
            )
        },
        None => {
            let out: Vec<Relation> = Vec::new();
            assert(views(out@) =~= Seq::<RelationView>::empty());
            out
        },
    }
}

/// The summary and the graph of the repository `repo`.
///
/// The language is chosen by the paths surveyed. Each source file of that
/// language is parsed and its entities are read off; a file that cannot be
/// read or parsed adds none. Once the entities of all files are known, the
/// references of each file are resolved against them.
pub fn parse_repo(repo: &RepoSnapshot) -> (out: Option<(RepoInfo, EntityGraph)>)
    ensures
        match out {
            Some((info, graph)) => parsed_repo(repo@) == Some((info@, graph@)),
            None => parsed_repo(repo@) is None,
        },
{
    let lang = match detect_language(&repo.survey) {
        Some(lang) => lang,
        None => {
            return None;
        },
    };
    let paths = collect_source_files(&repo.files, &lang);
    let n = paths.len();
    let mut all: Vec<Entity> = Vec::new();
    let mut ranges: Vec<(usize, usize)> = Vec::new();
    let mut taken: usize = 0;
    let mut i: usize = 0;
    assert(views(all@) =~= Seq::<EntityView>::empty());
    while i < n
        invariant
            i <= n,
            n == paths.len(),
            views(paths@) == source_paths(repo@.files, lang),
            views(all@) == entities_upto(repo@, lang, i as int),
            taken == parsed_upto(repo@, lang, i as int),
            taken <= i,
            ranges.len() == i,
            forall|k: int|
                0 <= k < i ==> (#[trigger] ranges@[k]).0 == entities_upto(repo@, lang, k).len()
                    && ranges@[k].1 == entities_upto(repo@, lang, k + 1).len(),
        decreases n - i,
    {
        let file = relative_path(paths[i].as_str(), repo.root.as_str());
        assert(file@ == source_file(repo@, lang, i as int));
        let start = all.len();
        match source_text(repo, i) {
            Some(source) => match extract_file_entities(source, file.as_str(), &lang) {
                Some(mut found) => {
                    proof {
                        lemma_views_add(all@, found@);
                    }
                    all.append(&mut found);
                    taken += 1;
                },
                None => {
                    assert(views(all@) + Seq::<EntityView>::empty() =~= views(all@));
                },
            },
            None => {
                assert(views(all@) + Seq::<EntityView>::empty() =~= views(all@));
            },
        }
        ranges.push((start, all.len()));
        i += 1;
    }
    let prefix = match lang {
        DetectedLanguage::Go => get_go_module_name(as_text(&repo.manifest), as_text(&repo.name)),
        _ => String::new(),
    };
    let names = NameIndex::build(&all);
    let dirs = index_entity_dirs(&all);
    let mut relations: Vec<Relation> = Vec::new();
    let mut i: usize = 0;
    assert(views(relations@) =~= Seq::<RelationView>::empty());
    while i < n
        invariant
            i <= n,
            n == paths.len(),
            ranges.len() == n,
            views(paths@) == source_paths(repo@.files, lang),
            views(all@) == entities_upto(repo@, lang, n as int),
            names@ == names_of(views(all@)),
            dirs@ == entity_dirs(views(all@)),
            prefix@ == import_root(repo@, lang),
            forall|k: int|
                0 <= k < n ==> (#[trigger] ranges@[k]).0 == entities_upto(repo@, lang, k).len()
                    && ranges@[k].1 == entities_upto(repo@, lang, k + 1).len(),
            views(relations@) == relations_upto(repo@, lang, views(all@), i as int),
        decreases n - i,
    {
        let (start, end) = ranges[i];
        let file = relative_path(paths[i].as_str(), repo.root.as_str());
        assert(file@ == source_file(repo@, lang, i as int));
        let ghost text = source_at(repo@, i as int);
        let ghost here = file_entities(lang, file@, text);
        proof {
            lemma_entities_upto_prefix(repo@, lang, i as int, n as int);
            lemma_entities_upto_prefix(repo@, lang, i + 1, n as int);
            let upto = entities_upto(repo@, lang, i + 1);
            assert(upto == entities_upto(repo@, lang, i as int) + here);
            assert(ranges@[i as int].0 == start && ranges@[i as int].1 == end);
            assert(upto =~= views(all@).subrange(0, upto.len() as int));
            assert(upto.subrange(start as int, end as int) =~= here);
            assert(views(all@).subrange(start as int, end as int) =~= upto.subrange(
                start as int,
                end as int,
            ));
            lemma_file_references_empty(
                file_scope(repo@, lang, views(all@), file@, Seq::empty(), Seq::empty()),
                Seq::empty(),
            );
        }
        if start != end {
            match source_text(repo, i) {
                Some(source) => {
                    let entities = slice_subrange(all.as_slice(), start, end);
                    assert(views(entities@) =~= views(all@).subrange(start as int, end as int));
                    let mut found = extract_file_relations(
                        source,
                        file.as_str(),
                        entities,
                        &lang,
                        prefix.as_str(),
                        &names,
                        &dirs,
                    );
                    proof {
                        lemma_views_add(relations@, found@);
                    }
                    relations.append(&mut found);
                },
                None => {
                    assert(views(relations@) + Seq::<RelationView>::empty() =~= views(relations@));
                },
            }
        } else {
            proof {
                match text {
                    Some(source) => match parsed_tree(source, lang) {
                        Some(nodes) => {
                            lemma_file_references_empty(
                                file_scope(repo@, lang, views(all@), file@, source, nodes),
                                nodes,
                            );
                        },
                        None => {},
                    },
                    None => {},
                }
                assert(views(relations@) + Seq::<RelationView>::empty() =~= views(relations@));
            }
        }
        i += 1;
    }
    let graph = EntityGraph { entities: all, relations };
    let info = summarise(repo, &lang, &graph, taken);
    Some((info, graph))
}

/// A file without entities has no references.
pub proof fn lemma_file_references_empty(scope: Scope, nodes: Seq<crate::syntax::NodeView>)
    ensures
        file_references(scope, nodes, Seq::empty()) == Seq::<RelationView>::empty(),
{
}

/// Whether no two of `entities` share an id.
pub open spec fn ids_distinct(entities: Seq<EntityView>) -> bool {
    forall|a: int, b: int|
        0 <= a < b < entities.len() ==> (#[trigger] entities[a]).id != (#[trigger] entities[b]).id
}

/// The references of the first `n` files lead from entities of those
/// files, and none links an entity to itself. Where no two entities of the
/// repository share an id, no two of them link the same pair in the same
/// direction.
pub proof fn lemma_relations_upto(repo: SnapshotView, language: DetectedLanguage, m: int, n: int)
    requires
        0 <= n <= m,
    ensures
        forall|j: int|
            0 <= j < relations_upto(repo, language, entities_upto(repo, language, m), n).len()
                ==> {
                let edge = #[trigger] relations_upto(
                    repo,
                    language,
                    entities_upto(repo, language, m),
                    n,
                )[j];
                edge.from_id != edge.to_id && leads_from_one_of(
                    edge,
                    entities_upto(repo, language, n),
                )
            },
        ids_distinct(entities_upto(repo, language, m)) ==> edges_ok(
            relations_upto(repo, language, entities_upto(repo, language, m), n),
        ),
    decreases n,
{
    let all = entities_upto(repo, language, m);
    if n > 0 {
        let before = relations_upto(repo, language, all, n - 1);
        let after = relations_upto(repo, language, all, n);
        let file = source_file(repo, language, n - 1);
        let text = source_at(repo, n - 1);
        let own = file_entities(language, file, text);
        let added = file_relations(repo, language, all, file, text);
        let early = entities_upto(repo, language, n - 1);
        let upto = entities_upto(repo, language, n);
        lemma_relations_upto(repo, language, m, n - 1);
        lemma_entities_upto_prefix(repo, language, n, m);
        assert(upto == early + own);
        assert(upto =~= all.subrange(0, upto.len() as int));
        match text {
            Some(source) => match parsed_tree(source, language) {
                Some(nodes) => {
                    lemma_file_references_ok(
                        file_scope(repo, language, all, file, source, nodes),
                        nodes,
                        own,
                    );
                },
                None => {},
            },
            None => {},
        }
        assert(edges_ok(added));
        assert forall|j: int| 0 <= j < after.len() implies {
            let edge = #[trigger] after[j];
            edge.from_id != edge.to_id && leads_from_one_of(edge, upto)
        } by {
            if j < before.len() {
                assert(after[j] == before[j]);
                let e = choose|e: int| 0 <= e < early.len() && (#[trigger] early[e]).id == before[j].from_id;
                assert(upto[e] == early[e]);
            } else {
                let edge = added[j - before.len()];
                assert(after[j] == edge);
                assert(leads_from_one_of(edge, own));
                let e = choose|e: int| 0 <= e < own.len() && (#[trigger] own[e]).id == edge.from_id;
                assert(upto[early.len() + e] == own[e]);
            }
        }
        if ids_distinct(all) {
            assert forall|i: int, j: int| 0 <= i < j < after.len() implies !((#[trigger] after[i]).from_id
                == (#[trigger] after[j]).from_id && after[i].to_id == after[j].to_id) by {
                if j < before.len() {
                    assert(after[i] == before[i] && after[j] == before[j]);
                } else if i >= before.len() {
                    assert(after[i] == added[i - before.len()]);
                    assert(after[j] == added[j - before.len()]);
                } else {
                    assert(after[i] == before[i]);
                    let edge = added[j - before.len()];
                    assert(after[j] == edge);
                    assert(leads_from_one_of(before[i], early));
                    assert(leads_from_one_of(edge, own));
                    let a = choose|a: int| 0 <= a < early.len() && (#[trigger] early[a]).id == before[i].from_id;
                    let b = choose|b: int| 0 <= b < own.len() && (#[trigger] own[b]).id == edge.from_id;
                    assert(all[a] == upto[a]);
                    assert(upto[a] == early[a]);
                    assert(all[early.len() + b] == upto[early.len() + b]);
                    assert(upto[early.len() + b] == own[b]);
                }
            }
        }
    }
}

/// No relation of a repository's graph links an entity to itself. Where no
/// two entities of the repository share an id, no two relations link the
/// same pair of entities in the same direction, whatever their kinds.
pub proof fn lemma_repo_graph_edges(repo: SnapshotView, language: DetectedLanguage)
    ensures
        forall|j: int|
            0 <= j < repo_graph(repo, language).relations.len() ==> (#[trigger] repo_graph(
                repo,
                language,
            ).relations[j]).from_id != repo_graph(repo, language).relations[j].to_id,
        ids_distinct(repo_graph(repo, language).entities) ==> edges_ok(
            repo_graph(repo, language).relations,
        ),
{
    let n = source_paths(repo.files, language).len() as int;
    lemma_relations_upto(repo, language, n, n);
}

/// Whether each of `entities` bears the id made of its file, kind and name.
pub open spec fn ids_follow(entities: Seq<EntityView>) -> bool {
    forall|k: int|
        0 <= k < entities.len() ==> (#[trigger] entities[k]).id == crate::extract::entity_id(
            entities[k].file,
            entities[k].name,
            entities[k].kind,
        )
}

/// Each entity of a repository bears the id made of its file, kind and
/// name.
pub proof fn lemma_entities_upto_ids(repo: SnapshotView, language: DetectedLanguage, n: int)
    ensures
        ids_follow(entities_upto(repo, language, n)),
    decreases n,
{
    if n > 0 {
        let before = entities_upto(repo, language, n - 1);
        let file = source_file(repo, language, n - 1);
        let text = source_at(repo, n - 1);
        let own = file_entities(language, file, text);
        let after = entities_upto(repo, language, n);
        lemma_entities_upto_ids(repo, language, n - 1);
        match text {
            Some(source) => match parsed_tree(source, language) {
                Some(nodes) => {
                    crate::extract::lemma_go_declarations_ids(
                        source,
                        nodes,
                        crate::syntax::child_indices(nodes, 0),
                        file,
                        go_package(source, nodes),
                    );
                    crate::extract::lemma_generic_entities_ids(
                        source,
                        nodes,
                        nodes.len() as int,
                        file,
                        crate::paths::parent_name(file),
                        language,
                    );
                },
                None => {},
            },
            None => {},
        }
        assert(crate::extract::ids_built(own, file));
        assert forall|k: int| 0 <= k < after.len() implies (#[trigger] after[k]).id
            == crate::extract::entity_id(after[k].file, after[k].name, after[k].kind) by {
            if k < before.len() {
                assert(after[k] == before[k]);
            } else {
                assert(after[k] == own[k - before.len()]);
            }
        }
    }
}

/// Whether no two of `entities` are declared in the same file with the
/// same kind and the same name.
pub open spec fn declarations_distinct(entities: Seq<EntityView>) -> bool {
    forall|a: int, b: int|
        0 <= a < b < entities.len() ==> !((#[trigger] entities[a]).file == (
        #[trigger] entities[b]).file && entities[a].kind == entities[b].kind && entities[a].name
            == entities[b].name)
}

/// Whether no name among `entities` holds a colon.
pub open spec fn names_plain(entities: Seq<EntityView>) -> bool {
    forall|k: int| 0 <= k < entities.len() ==> !(#[trigger] entities[k]).name.contains(':')
}

/// Where no file of a repository declares two entities of the same kind
/// under the same name, and no name holds a colon, every entity of the
/// repository's graph has an id of its own; and then no two relations of
/// the graph link the same pair of entities in the same direction.
pub proof fn lemma_repo_graph_ids(repo: SnapshotView, language: DetectedLanguage)
    requires
        declarations_distinct(repo_graph(repo, language).entities),
        names_plain(repo_graph(repo, language).entities),
    ensures
        ids_distinct(repo_graph(repo, language).entities),
        edges_ok(repo_graph(repo, language).relations),
{
    let n = source_paths(repo.files, language).len() as int;
    let all = entities_upto(repo, language, n);
    lemma_entities_upto_ids(repo, language, n);
    assert forall|a: int, b: int| 0 <= a < b < all.len() implies (#[trigger] all[a]).id != (
    #[trigger] all[b]).id by {
        if all[a].id == all[b].id {
            crate::extract::lemma_entity_ids_differ(
                all[a].file,
                all[a].name,
                all[a].kind,
                all[b].file,
                all[b].name,
                all[b].kind,
            );
        }
    }
    lemma_repo_graph_edges(repo, language);
}

/// Whether the repository `more` is the repository `less` with one more
/// source file of `language`, at position `at` among the source files,
/// that cannot be read or parsed.
pub open spec fn has_one_more_skipped_file(
    less: SnapshotView,
    more: SnapshotView,
    language: DetectedLanguage,
    at: int,
) -> bool {
    let old_paths = source_paths(less.files, language);
    let new_paths = source_paths(more.files, language);
    &&& more.root == less.root
    &&& more.name == less.name
    &&& more.manifest == less.manifest
    &&& more.manifest_path == less.manifest_path
    &&& dominant_language(less.survey) == Some(language)
    &&& dominant_language(more.survey) == Some(language)
    &&& 0 <= at <= old_paths.len()
    &&& new_paths.len() == old_paths.len() + 1
    &&& forall|i: int|
        0 <= i < at ==> #[trigger] new_paths[i] == old_paths[i] && source_at(more, i) == source_at(
            less,
            i,
        )
    &&& forall|i: int|
        at <= i < old_paths.len() ==> new_paths[i + 1] == #[trigger] old_paths[i] && source_at(
            more,
            i + 1,
        ) == source_at(less, i)
    &&& !gives_tree(language, source_at(more, at))
}

/// The position among the source files of `less` that stands for position
/// `n` among those of `more`.
pub open spec fn without_skipped(n: int, at: int) -> int {
    if n <= at {
        n
    } else {
        n - 1
    }
}

/// A file that is skipped adds nothing to the entities and to the count of
/// files.
pub proof fn lemma_skipped_file_entities(
    less: SnapshotView,
    more: SnapshotView,
    language: DetectedLanguage,
    at: int,
    n: int,
)
    requires
        has_one_more_skipped_file(less, more, language, at),
        0 <= n <= source_paths(more.files, language).len(),
    ensures
        entities_upto(more, language, n) == entities_upto(less, language, without_skipped(n, at)),
        parsed_upto(more, language, n) == parsed_upto(less, language, without_skipped(n, at)),
    decreases n,
{
    if n > 0 {
        let old_paths = source_paths(less.files, language);
        let new_paths = source_paths(more.files, language);
        lemma_skipped_file_entities(less, more, language, at, n - 1);
        let i = n - 1;
        if i < at {
            assert(new_paths[i] == old_paths[i]);
        } else if i == at {
            assert(file_entities(language, source_file(more, language, i), source_at(more, i))
                =~= Seq::<EntityView>::empty());
            assert(entities_upto(more, language, n) =~= entities_upto(more, language, n - 1));
        } else {
            assert(new_paths[(i - 1) + 1] == old_paths[i - 1]);
        }
    }
}

/// A file that is skipped adds nothing to the relations.
pub proof fn lemma_skipped_file_relations(
    less: SnapshotView,
    more: SnapshotView,
    language: DetectedLanguage,
    all: Seq<EntityView>,
    at: int,
    n: int,
)
    requires
        has_one_more_skipped_file(less, more, language, at),
        0 <= n <= source_paths(more.files, language).len(),
    ensures
        relations_upto(more, language, all, n) == relations_upto(
            less,
            language,
            all,
            without_skipped(n, at),
        ),
    decreases n,
{
    if n > 0 {
        let old_paths = source_paths(less.files, language);
        let new_paths = source_paths(more.files, language);
        lemma_skipped_file_relations(less, more, language, all, at, n - 1);
        let i = n - 1;
        if i < at {
            assert(new_paths[i] == old_paths[i]);
            assert(file_relations(
                more,
                language,
                all,
                source_file(more, language, i),
                source_at(more, i),
            ) == file_relations(
                less,
                language,
                all,
                source_file(less, language, i),
                source_at(less, i),
            ));
        } else if i == at {
            assert(file_relations(
                more,
                language,
                all,
                source_file(more, language, i),
                source_at(more, i),
            ) =~= Seq::<RelationView>::empty());
            assert(relations_upto(more, language, all, n) =~= relations_upto(
                more,
                language,
                all,
                n - 1,
            ));
        } else {
            assert(new_paths[(i - 1) + 1] == old_paths[i - 1]);
            assert(file_relations(
                more,
                language,
                all,
                source_file(more, language, i),
                source_at(more, i),
            ) == file_relations(
                less,
                language,
                all,
                source_file(less, language, i - 1),
                source_at(less, i - 1),
            ));
        }
    }
}

/// A source file that cannot be read or parsed is skipped and changes
/// nothing: the repository with it has the same graph and the same summary
/// as the repository without it. The entities and relations of the other
/// files, the count of entities and the count of files are as they would
/// be were the file not there.
pub proof fn lemma_skipped_file_changes_nothing(
    less: SnapshotView,
    more: SnapshotView,
    language: DetectedLanguage,
    at: int,
)
    requires
        has_one_more_skipped_file(less, more, language, at),
    ensures
        parsed_repo(more) is Some,
        parsed_repo(more) == parsed_repo(less),
        repo_graph(more, language) == repo_graph(less, language),
{
    let n = source_paths(more.files, language).len() as int;
    let m = source_paths(less.files, language).len() as int;
    lemma_skipped_file_entities(less, more, language, at, n);
    let all = entities_upto(less, language, m);
    assert(entities_upto(more, language, n) == all);
    lemma_skipped_file_relations(less, more, language, all, at, n);
    assert(repo_graph(more, language) == repo_graph(less, language));
    assert(repo_attributes(
        more,
        language,
        package_labels(all).len(),
        parsed_upto(more, language, n),
    ) == repo_attributes(less, language, package_labels(all).len(), parsed_upto(less, language, m)));
    assert(repo_info(more, language, repo_graph(more, language)) == repo_info(
        less,
        language,
        repo_graph(less, language),
    ));
}

} // verus!
