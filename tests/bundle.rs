use algorist::bundle::analyze::{analyze, UseTree};
use algorist::bundle::expand::{expand_items, SourceCache, SourceFile};
use algorist::bundle::item::{filter_attrs, Attr, Item, UseRoot};
use algorist::bundle::path::{ModulePath, UsedModuleSet};
use algorist::bundle::pipeline::{
    choose_file, module_flat_file, module_nested_file, BundleError, FileChoice, ProcessBinaryFile,
};

fn chars(s: &str) -> Vec<char> {
    s.chars().collect()
}

fn text(v: &[char]) -> String {
    v.iter().collect()
}

fn path(segments: &[&str]) -> ModulePath {
    ModulePath { segments: segments.iter().map(|s| s.to_string()).collect() }
}

fn attr(name: &str, args: &str) -> Attr {
    let full = if args.is_empty() { format!("#[{}]", name) } else { format!("#[{}({})]", name, args) };
    Attr { name: name.to_string(), args: args.to_string(), text: chars(&full) }
}

fn ext_mod(name: &str) -> Item {
    Item::Mod { attrs: vec![], vis: chars("pub "), name: name.to_string(), content: None }
}

fn other(t: &str) -> Item {
    Item::Other { attrs: vec![], text: chars(t) }
}

fn use_crate(tail: &str) -> Item {
    Item::Use { attrs: vec![], vis: vec![], root: UseRoot::Crate, tail: chars(tail) }
}

fn name(s: &str) -> UseTree {
    UseTree::Name { ident: s.to_string() }
}

fn seg(s: &str, t: UseTree) -> UseTree {
    UseTree::Path { ident: s.to_string(), tree: Box::new(t) }
}

/// The library used by the scenarios: `math` with `gcd`, `primes` and `root`.
fn library() -> Vec<(Vec<&'static str>, Vec<Item>)> {
    vec![
        (vec!["math"], vec![ext_mod("gcd"), ext_mod("primes"), ext_mod("root")]),
        (vec!["math", "gcd"], vec![use_crate("math::Number"), other("pub fn gcd() {}")]),
        (vec!["math", "primes"], vec![other("pub fn is_prime() {}")]),
        (vec!["math", "root"], vec![other("pub fn root() {}")]),
        (vec!["io"], vec![other("pub struct Scanner;")]),
    ]
}

/// Runs the phases, reading from `files` each module that the expansion asks for.
fn bundle(
    entry: &str,
    imports: Vec<UseTree>,
    root: Vec<Item>,
    files: Vec<(Vec<&str>, Vec<Item>)>,
) -> Result<String, Vec<String>> {
    let phase = ProcessBinaryFile::new("algorist".to_string()).process_binary_file(&chars(entry), &imports);
    let mut cache = SourceCache::new();
    let mut files: Vec<Option<(Vec<&str>, Vec<Item>)>> = files.into_iter().map(Some).collect();
    loop {
        match phase.process_library_file(&root, &cache) {
            Ok(done) => return Ok(text(done.output())),
            Err(p) => {
                let found = files
                    .iter_mut()
                    .find(|f| matches!(f, Some((segs, _)) if *segs == p.segments));
                match found {
                    Some(slot) => {
                        let (segs, items) = slot.take().unwrap();
                        cache.add(SourceFile { path: path(&segs), items });
                    },
                    None => return Err(p.segments),
                }
            },
        }
    }
}

#[test]
fn scenario_a_only_gcd_is_inlined() {
    let imports = vec![seg("algorist", seg("math", seg("gcd", name("gcd"))))];
    let out = bundle("use algorist::math::gcd::gcd;", imports, vec![ext_mod("math"), ext_mod("io")], library())
        .unwrap();
    assert_eq!(
        out,
        "use algorist::math::gcd::gcd;\n\
         #[allow(dead_code)]\n#[allow(unused_imports)]\n#[allow(unused_macros)]\n\
         mod algorist {\n\
         pub mod math {\n\
         pub mod gcd {\n\
         use super::super::math::Number;\n\
         pub fn gcd() {}\n\
         }\n\
         }\n\
         }\n"
    );
    assert!(!out.contains("primes"));
    assert!(!out.contains("root"));
    assert!(!out.contains("Scanner"));
}

#[test]
fn scenario_b_missing_module_names_both_files() {
    let imports = vec![seg("algorist", seg("graph", name("dfs")))];
    let missing = bundle("", imports, vec![ext_mod("graph")], library()).unwrap_err();
    assert_eq!(missing, vec!["graph".to_string()]);

    let root = chars("src");
    match choose_file(&root, &path(&["graph"]), false, false) {
        Err(BundleError::ModuleNotFound { module, flat, nested }) => {
            assert_eq!(module.segments, vec!["graph".to_string()]);
            assert_eq!(text(&flat), "src/graph.rs");
            assert_eq!(text(&nested), "src/graph/mod.rs");
        },
        other => panic!("unexpected {:?}", other),
    }
}

#[test]
fn module_file_choice() {
    let root = chars("src");
    let p = path(&["math", "gcd"]);
    assert_eq!(text(&module_flat_file(&root, &p)), "src/math/gcd.rs");
    assert_eq!(text(&module_nested_file(&root, &p)), "src/math/gcd/mod.rs");
    assert!(matches!(choose_file(&root, &p, true, false), Ok(FileChoice::Flat)));
    assert!(matches!(choose_file(&root, &p, false, true), Ok(FileChoice::Nested)));
    assert!(matches!(choose_file(&root, &p, true, true), Err(BundleError::AmbiguousModule { .. })));
}

#[test]
fn scenario_c_self_reference_gets_two_more_hops() {
    let imports = vec![seg("algorist", seg("math", seg("gcd", UseTree::Glob)))];
    let out = bundle("", imports, vec![ext_mod("math")], library()).unwrap();
    assert!(out.contains("pub mod gcd {\nuse super::super::math::Number;\n"));
    assert!(!out.contains("crate::"));
}

#[test]
fn scenario_d_no_imports_gives_empty_wrapper() {
    let out = bundle("fn main() {}", vec![], vec![ext_mod("math"), ext_mod("io")], library()).unwrap();
    assert_eq!(
        out,
        "fn main() {}\n#[allow(dead_code)]\n#[allow(unused_imports)]\n#[allow(unused_macros)]\nmod algorist {\n}\n"
    );
}

#[test]
fn bundling_twice_gives_the_same_text() {
    let run = || {
        let imports = vec![seg("algorist", seg("math", UseTree::Group {
            items: vec![name("gcd"), UseTree::Rename { ident: "root".to_string(), rename: "r".to_string() }],
        }))];
        bundle("", imports, vec![ext_mod("math")], library()).unwrap()
    };
    let first = run();
    assert_eq!(first, run());
    assert!(first.contains("pub mod gcd {"));
    assert!(first.contains("pub mod root {"));
    assert!(!first.contains("primes"));
}

#[test]
fn test_code_is_dropped() {
    let mut tests = ext_mod("tests");
    if let Item::Mod { attrs, .. } = &mut tests {
        attrs.push(attr("cfg", "test"));
    }
    let files = vec![(vec!["io"], vec![other("pub struct Scanner;"), tests, other("fn after_tests() {}")])];
    let imports = vec![seg("algorist", seg("io", name("Scanner")))];
    let out = bundle("", imports, vec![ext_mod("io")], files).unwrap();
    assert!(out.contains("pub struct Scanner;"));
    assert!(!out.contains("tests"));
    assert!(!out.contains("after_tests"));
}

#[test]
fn annotations_are_filtered() {
    let attrs = vec![attr("doc", "\"x\""), attr("inline", ""), attr("allow", "dead_code"), attr("cfg", "unix"), attr("warn", "x"), attr("derive", "Debug")];
    let kept = filter_attrs(&attrs);
    let texts: Vec<String> = kept.iter().map(|a| text(&a.text)).collect();
    assert_eq!(texts, vec!["#[inline]".to_string(), "#[derive(Debug)]".to_string()]);

    let item = Item::Other { attrs, text: chars("pub struct S;") };
    let files = vec![(vec!["io"], vec![item])];
    let imports = vec![seg("algorist", seg("io", name("S")))];
    let out = bundle("", imports, vec![ext_mod("io")], files).unwrap();
    assert!(out.contains("pub mod io {\n#[inline]\n#[derive(Debug)]\npub struct S;\n}\n"));
    assert!(!out.contains("doc"));
}

#[test]
fn closure_of_imports() {
    let imports = vec![
        seg("algorist", seg("math", UseTree::Group { items: vec![seg("gcd", name("lcm")), name("primes")] })),
        seg("algorist", UseTree::Glob),
        seg("std", seg("io", name("Read"))),
        name("algorist"),
    ];
    let used = analyze(&imports, &"algorist".to_string());
    assert!(!used.contains(&path(&[])));
    assert!(!used.contains(&path(&["math"])));
    assert!(used.contains(&path(&["math", "gcd", "lcm"])));
    assert!(used.contains(&path(&["math", "primes"])));
    assert!(used.is_allowed(&path(&["math"])));
    assert!(used.is_allowed(&path(&["math", "gcd"])));
    assert!(!used.is_allowed(&path(&["math", "root"])));
    assert!(!used.is_allowed(&path(&["io"])));
}

#[test]
fn used_set_and_paths() {
    let mut used = UsedModuleSet::new();
    used.insert(path(&["a", "b"]));
    used.insert(path(&["a", "b"]));
    assert!(used.contains(&path(&["a", "b"])));
    assert!(!used.contains(&path(&["a"])));
    assert!(used.is_allowed(&path(&["a"])));
    assert!(!used.is_allowed(&path(&["a", "b", "c"])));
    let p = ModulePath::single("a".to_string()).child("b".to_string());
    assert!(used.contains(&p));
    assert_eq!(p.len(), 2);
}

#[test]
fn expansion_asks_for_the_first_missing_file() {
    let used = analyze(&vec![seg("algorist", seg("math", seg("gcd", name("gcd"))))], &"algorist".to_string());
    let cache = SourceCache::new();
    let top = ModulePath { segments: vec![] };
    let r = expand_items(&vec![ext_mod("io"), ext_mod("math")], &top, &used, &cache, &"algorist".to_string());
    assert_eq!(r.unwrap_err().segments, vec!["math".to_string()]);
    let mut cache = SourceCache::new();
    cache.add(SourceFile { path: path(&["math"]), items: vec![ext_mod("gcd")] });
    assert!(cache.contains(&path(&["math"])));
    assert!(cache.find(&path(&["io"])).is_none());
    let r = expand_items(&vec![ext_mod("math")], &top, &used, &cache, &"algorist".to_string());
    assert_eq!(r.unwrap_err().segments, vec!["math".to_string(), "gcd".to_string()]);
}

#[test]
fn macro_paths_go_through_the_wrapper() {
    let files = vec![(vec!["io"], vec![other("macro_rules! wln { ($w:expr) => { $crate::io::write($w) }; }")])];
    let imports = vec![seg("algorist", seg("io", name("wln")))];
    let out = bundle("", imports, vec![ext_mod("io")], files).unwrap();
    assert!(out.contains("{ crate::algorist::io::write($w) }"));
    assert!(!out.contains("$crate"));
}
