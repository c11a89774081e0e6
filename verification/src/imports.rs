//! Go imports: the names under which a file imports packages, and the
//! directories of the repository that they stand for.

use crate::syntax::{
    child_by_field, child_indices, lemma_children_in_range, node_text, NodeView, SyntaxTree,
};
use crate::table::{lookup, replay, TextMap};
use crate::text::{
    after_last, chars_of, find_first_from, first_line, first_pos, holds_at, lemma_first_pos,
    skip_repeated, slice_chars, str_eq, strip_repeated_prefix, text_after_last,
    text_trim_char, text_trim_start_char, trim_char, trim_space, trim_space_between,
    trim_start_char,
};
use vstd::prelude::*;
use vstd::string::StringExecFns;

verus! {

broadcast use vstd::string::group_string_axioms;

/// A map from the names under which a file imports packages to what each
/// name stands for: an import path, or a directory of the repository.
pub type ImportMap = TextMap;

/// What the import spec at node `s` binds: a name and the import path, less
/// its quotes. The name is the one written, or the last segment of the path
/// where none is written; a spec that imports under `.` or `_` binds
/// nothing.
pub open spec fn import_binding(source: Seq<char>, nodes: Seq<NodeView>, s: int) -> Option<
    (Seq<char>, Seq<char>),
> {
    match child_by_field(nodes, s, "path"@) {
        Some(p) => {
            let path = trim_char(node_text(source, nodes[p as int]), '"');
            match child_by_field(nodes, s, "name"@) {
                Some(n) => {
                    let name = node_text(source, nodes[n as int]);
                    if name == "."@ || name == "_"@ {
                        None
                    } else {
                        Some((name, path))
                    }
                },
                None => Some((after_last(path, '/'), path)),
            }
        },
        None => None,
    }
}

/// `imports` with what node `s` binds, where `s` is an import spec.
pub open spec fn with_import_spec(
    imports: Map<Seq<char>, Seq<char>>,
    source: Seq<char>,
    nodes: Seq<NodeView>,
    s: int,
) -> Map<Seq<char>, Seq<char>> {
    if 0 <= s < nodes.len() && nodes[s].kind == "import_spec"@ {
        match import_binding(source, nodes, s) {
            Some((name, path)) => imports.insert(name, path),
            None => imports,
        }
    } else {
        imports
    }
}

/// `imports` with what the import specs among `items` bind, in order.
pub open spec fn with_import_specs(
    imports: Map<Seq<char>, Seq<char>>,
    source: Seq<char>,
    nodes: Seq<NodeView>,
    items: Seq<usize>,
) -> Map<Seq<char>, Seq<char>>
    decreases items.len(),
{
    if items.len() == 0 {
        imports
    } else {
        with_import_spec(
            with_import_specs(imports, source, nodes, items.drop_last()),
            source,
            nodes,
            items.last() as int,
        )
    }
}

/// `imports` with what the child `c` of an import declaration binds: one
/// spec, or the specs of a parenthesised list.
pub open spec fn with_import_child(
    imports: Map<Seq<char>, Seq<char>>,
    source: Seq<char>,
    nodes: Seq<NodeView>,
    c: int,
) -> Map<Seq<char>, Seq<char>> {
    if !(0 <= c < nodes.len()) {
        imports
    } else if nodes[c].kind == "import_spec"@ {
        with_import_spec(imports, source, nodes, c)
    } else if nodes[c].kind == "import_spec_list"@ {
        with_import_specs(imports, source, nodes, child_indices(nodes, c))
    } else {
        imports
    }
}

/// `imports` with what the children `kids` of an import declaration bind.
pub open spec fn with_import_children(
    imports: Map<Seq<char>, Seq<char>>,
    source: Seq<char>,
    nodes: Seq<NodeView>,
    kids: Seq<usize>,
) -> Map<Seq<char>, Seq<char>>
    decreases kids.len(),
{
    if kids.len() == 0 {
        imports
    } else {
        with_import_child(
            with_import_children(imports, source, nodes, kids.drop_last()),
            source,
            nodes,
            kids.last() as int,
        )
    }
}

/// `imports` with what the import declarations among the top-level nodes
/// `kids` bind.
pub open spec fn with_import_declarations(
    imports: Map<Seq<char>, Seq<char>>,
    source: Seq<char>,
    nodes: Seq<NodeView>,
    kids: Seq<usize>,
) -> Map<Seq<char>, Seq<char>>
    decreases kids.len(),
{
    if kids.len() == 0 {
        imports
    } else {
        let before = with_import_declarations(imports, source, nodes, kids.drop_last());
        let d = kids.last() as int;
        if 0 <= d < nodes.len() && nodes[d].kind == "import_declaration"@ {
            with_import_children(before, source, nodes, child_indices(nodes, d))
        } else {
            before
        }
    }
}

/// The imports of a Go file: each name under which it imports a package,
/// with the import path. Where a name is bound twice, the later import
/// counts.
pub open spec fn go_imports(source: Seq<char>, nodes: Seq<NodeView>) -> Map<Seq<char>, Seq<char>> {
    with_import_declarations(Map::empty(), source, nodes, child_indices(nodes, 0))
}

/// Adds what the node `s` binds, where it is an import spec.
fn add_import_spec(source: &str, tree: &SyntaxTree, s: usize, imports: &mut TextMap)
    requires
        s < tree@.len(),
    ensures
        final(imports)@ == with_import_spec(old(imports)@, source@, tree@, s as int),
{
    if !tree.kind_is(s, "import_spec") {
        return ;
    }
    match tree.child_by_field(s, "path") {
        Some(p) => {
            let quoted = tree.text_of(source, p);
            let path = text_trim_char(quoted.as_str(), '"');
            match tree.child_by_field(s, "name") {
                Some(n) => {
                    let name = tree.text_of(source, n);
                    if !(str_eq(name.as_str(), ".") || str_eq(name.as_str(), "_")) {
                        imports.insert(name, path);
                    }
                },
                None => {
                    let name = text_after_last(path.as_str(), '/');
                    imports.insert(name, path);
                },
            }
        },
        None => {},
    }
}

/// Adds what the import specs among the children of `list` bind.
fn add_import_specs(source: &str, tree: &SyntaxTree, list: usize, imports: &mut TextMap)
    requires
        list < tree@.len(),
    ensures
        final(imports)@ == with_import_specs(
            old(imports)@,
            source@,
            tree@,
            child_indices(tree@, list as int),
        ),
{
    let items = tree.children(list);
    proof {
        lemma_children_in_range(tree@, list as int);
    }
    let mut k: usize = 0;
    assert(items@.take(0) =~= Seq::<usize>::empty());
    while k < items.len()
        invariant
            k <= items.len(),
            forall|n: int| 0 <= n < items.len() ==> (#[trigger] items@[n]) < tree@.len(),
            imports@ == with_import_specs(old(imports)@, source@, tree@, items@.take(k as int)),
        decreases items.len() - k,
    {
        assert(items@.take(k + 1).drop_last() =~= items@.take(k as int));
        assert(items@.take(k + 1).last() == items@[k as int]);
        add_import_spec(source, tree, items[k], imports);
        k += 1;
    }
    assert(items@.take(k as int) =~= items@);
}

/// Adds what the children of the import declaration at `d` bind.
fn add_import_declaration(source: &str, tree: &SyntaxTree, d: usize, imports: &mut TextMap)
    requires
        d < tree@.len(),
    ensures
        final(imports)@ == with_import_children(
            old(imports)@,
            source@,
            tree@,
            child_indices(tree@, d as int),
        ),
{
    let kids = tree.children(d);
    proof {
        lemma_children_in_range(tree@, d as int);
    }
    let mut k: usize = 0;
    assert(kids@.take(0) =~= Seq::<usize>::empty());
    while k < kids.len()
        invariant
            k <= kids.len(),
            forall|n: int| 0 <= n < kids.len() ==> (#[trigger] kids@[n]) < tree@.len(),
            imports@ == with_import_children(old(imports)@, source@, tree@, kids@.take(k as int)),
        decreases kids.len() - k,
    {
        let c = kids[k];
        assert(kids@.take(k + 1).drop_last() =~= kids@.take(k as int));
        assert(kids@.take(k + 1).last() == c);
        if tree.kind_is(c, "import_spec") {
            add_import_spec(source, tree, c, imports);
        } else if tree.kind_is(c, "import_spec_list") {
            add_import_specs(source, tree, c, imports);
        }
        k += 1;
    }
    assert(kids@.take(k as int) =~= kids@);
}

/// The imports of a Go file: each name under which it imports a package,
/// with the import path.
pub fn parse_go_imports(source: &str, tree: &SyntaxTree) -> (imports: TextMap)
    ensures
        imports@ == go_imports(source@, tree@),
{
    let mut imports = TextMap::new();
    let kids = tree.children(0);
    proof {
        lemma_children_in_range(tree@, 0);
    }
    let mut k: usize = 0;
    assert(kids@.take(0) =~= Seq::<usize>::empty());
    while k < kids.len()
        invariant
            k <= kids.len(),
            forall|n: int| 0 <= n < kids.len() ==> (#[trigger] kids@[n]) < tree@.len(),
            imports@ == with_import_declarations(
                Map::empty(),
                source@,
                tree@,
                kids@.take(k as int),
            ),
        decreases kids.len() - k,
    {
        let d = kids[k];
        assert(kids@.take(k + 1).drop_last() =~= kids@.take(k as int));
        assert(kids@.take(k + 1).last() == d);
        if tree.kind_is(d, "import_declaration") {
            add_import_declaration(source, tree, d, &mut imports);
        }
        k += 1;
    }
    assert(kids@.take(k as int) =~= kids@);
    imports
}

/// The directory of the repository that the import path `full_path` stands
/// for, given that the repository's own packages are imported under
/// `module_root`: what follows `module_root` and the slashes after it, or
/// `.` where nothing follows. A path that does not begin with `module_root`
/// lies outside the repository.
pub open spec fn import_dir(full_path: Seq<char>, module_root: Seq<char>) -> Option<Seq<char>> {
    if module_root.is_prefix_of(full_path) {
        let rest = trim_start_char(full_path.skip(module_root.len() as int), '/');
        if rest.len() == 0 {
            Some("."@)
        } else {
            Some(rest)
        }
    } else {
        None
    }
}

/// The directory that `qualifier` stands for in a file with the imports
/// `imports`; nothing where the file imports nothing under that name, or
/// something from outside the repository.
pub open spec fn resolved_dir(
    qualifier: Seq<char>,
    imports: Map<Seq<char>, Seq<char>>,
    module_root: Seq<char>,
) -> Option<Seq<char>> {
    match lookup(imports, qualifier) {
        Some(full_path) => import_dir(full_path, module_root),
        None => None,
    }
}

/// The directory of the repository that the import path `full_path` stands
/// for.
pub fn import_path_to_dir(full_path: &str, module_root: &str) -> (out: Option<String>)
    ensures
        match out {
            Some(dir) => import_dir(full_path@, module_root@) == Some(dir@),
            None => import_dir(full_path@, module_root@) is None,
        },
{
    let cs = chars_of(full_path);
    let ms = chars_of(module_root);
    let begins = holds_at(&cs, 0, &ms);
    proof {
        if module_root@.len() <= full_path@.len() {
            assert(full_path@.subrange(0, module_root@.len() as int) =~= full_path@.take(
                module_root@.len() as int,
            ));
        }
        if module_root@.is_prefix_of(full_path@) {
            assert(full_path@.subrange(0, module_root@.len() as int) =~= module_root@);
        }
    }
    if !begins {
        return None;
    }
    let tail = slice_chars(full_path, ms.len(), cs.len());
    assert(tail@ =~= full_path@.skip(module_root@.len() as int));
    let rest = text_trim_start_char(tail.as_str(), '/');
    if rest.as_str().unicode_len() == 0 {
        Some(String::from_str("."))
    } else {
        Some(rest)
    }
}

/// The directory that `qualifier` stands for in a file with the imports
/// `file_imports`.
pub fn resolve_import_to_dir(qualifier: &str, file_imports: &TextMap, module_root: &str) -> (out:
    Option<String>)
    ensures
        match out {
            Some(dir) => resolved_dir(qualifier@, file_imports@, module_root@) == Some(dir@),
            None => resolved_dir(qualifier@, file_imports@, module_root@) is None,
        },
{
    match file_imports.get(qualifier) {
        Some(full_path) => import_path_to_dir(full_path.as_str(), module_root),
        None => None,
    }
}

/// The directories that the names of `imports` stand for: each name that is
/// bound to a path inside the repository, with that path's directory.
pub open spec fn import_dirs(imports: Map<Seq<char>, Seq<char>>, module_root: Seq<char>) -> Map<
    Seq<char>,
    Seq<char>,
> {
    Map::new(
        |name: Seq<char>| resolved_dir(name, imports, module_root) is Some,
        |name: Seq<char>| resolved_dir(name, imports, module_root).unwrap(),
    )
}

/// The directories that the names of `imports` stand for.
pub fn resolve_imports(imports: &TextMap, module_root: &str) -> (dirs: TextMap)
    ensures
        dirs@ == import_dirs(imports@, module_root@),
{
    let mut dirs = TextMap::new();
    let n = imports.steps();
    let ghost log = imports.log_view();
    proof {
        imports.lemma_view_is_replay();
    }
    let mut i: usize = 0;
    assert(dirs@ =~= import_dirs(replay(log.take(0)), module_root@));
    while i < n
        invariant
            i <= n,
            n == log.len(),
            log == imports.log_view(),
            dirs@ == import_dirs(replay(log.take(i as int)), module_root@),
        decreases n - i,
    {
        let step = imports.step(i);
        let ghost before = replay(log.take(i as int));
        let ghost after = replay(log.take(i + 1));
        assert(log.take(i + 1).drop_last() =~= log.take(i as int));
        assert(log.take(i + 1).last() == log[i as int]);
        let dir = match &step.value {
            Some(full_path) => import_path_to_dir(full_path.as_str(), module_root),
            None => None,
        };
        match dir {
            Some(d) => {
                dirs.insert(step.key.clone(), d);
            },
            None => {
                dirs.remove(step.key.clone());
            },
        }
        assert(dirs@ =~= import_dirs(after, module_root@));
        i += 1;
    }
    assert(log.take(i as int) =~= log);
    dirs
}

/// The module that a Go module manifest names: what follows `module ` on
/// the first line that begins with it, less surrounding white space.
pub open spec fn manifest_module(text: Seq<char>) -> Option<Seq<char>>
    decreases text.len(),
{
    if text.len() == 0 {
        None
    } else {
        let line = first_line(text);
        let p = first_pos(text, '\n');
        if "module "@.is_prefix_of(line) {
            Some(trim_space(strip_repeated_prefix(line, "module "@)))
        } else if p < 0 {
            None
        } else {
            proof {
                lemma_first_pos(text, '\n');
            }
            manifest_module(text.skip(p + 1))
        }
    }
}

/// The module path of a repository: the one that its manifest names, else
/// the name of the repository, else `unknown`.
pub open spec fn module_name(manifest: Option<Seq<char>>, repo_name: Option<Seq<char>>) -> Seq<
    char,
> {
    let named = match manifest {
        Some(text) => manifest_module(text),
        None => None,
    };
    match named {
        Some(module) => module,
        None => match repo_name {
            Some(name) => name,
            None => "unknown"@,
        },
    }
}

/// The module that a Go module manifest names.
pub fn read_manifest_module(text: &str) -> (out: Option<String>)
    ensures
        match out {
            Some(module) => manifest_module(text@) == Some(module@),
            None => manifest_module(text@) is None,
        },
{
    let cs = chars_of(text);
    let key = chars_of("module ");
    let mut start: usize = 0;
    assert(text@.skip(0) =~= text@);
    while start < cs.len()
        invariant
            start <= cs.len(),
            cs@ == text@,
            key@ == "module "@,
            manifest_module(text@) == manifest_module(text@.skip(start as int)),
        decreases cs.len() - start,
    {
        let ghost rest = text@.skip(start as int);
        let found = find_first_from(&cs, start, '\n');
        let line_end: usize = match found {
            Some(k) => {
                let end = start + k;
                if k > 0 && cs[end - 1] == '\r' {
                    end - 1
                } else {
                    end
                }
            },
            None => cs.len(),
        };
        proof {
            match found {
                Some(k) => {
                    assert(rest.take(k as int) =~= text@.subrange(start as int, start + k));
                    if k > 0 && cs@[start + k - 1] == '\r' {
                        assert(rest.take(k as int).drop_last() =~= text@.subrange(
                            start as int,
                            start + k - 1,
                        ));
                    }
                },
                None => {
                    assert(rest =~= text@.subrange(start as int, text@.len() as int));
                },
            }
        }
        let ghost line = text@.subrange(start as int, line_end as int);
        assert(line == first_line(rest));
        let begins = holds_at(&cs, start, &key) && key.len() <= line_end - start;
        proof {
            if key@.len() <= line.len() {
                assert(line.take(key@.len() as int) =~= cs@.subrange(
                    start as int,
                    start + key@.len(),
                ));
            }
            if key@.is_prefix_of(line) {
                assert(line.take(key@.len() as int) =~= key@);
            }
        }
        if begins {
            let at = skip_repeated(&cs, start, line_end, &key);
            return Some(trim_space_between(text, &cs, at, line_end));
        }
        match found {
            Some(k) => {
                assert(rest.skip(k + 1) =~= text@.skip(start + k + 1));
                start = start + k + 1;
            },
            None => {
                return None;
            },
        }
    }
    None
}

/// The module path of a repository, given the text of its module manifest,
/// if it has one that can be read, and the repository's name, if it has one.
pub fn get_go_module_name(manifest: Option<&str>, repo_name: Option<&str>) -> (out: String)
    ensures
        out@ == module_name(
            match manifest {
                Some(text) => Some(text@),
                None => None,
            },
            match repo_name {
                Some(name) => Some(name@),
                None => None,
            },
        ),
{
    let named = match manifest {
        Some(text) => read_manifest_module(text),
        None => None,
    };
    match named {
        Some(module) => module,
        None => match repo_name {
            Some(name) => String::from_str(name),
            None => String::from_str("unknown"),
        },
    }
}

} // verus!
