//! The phases of a bundling run, each consuming the previous one, and module file lookup.
use vstd::prelude::*;
use crate::bundle::analyze::{analyze, closure, UseTree};
use crate::bundle::emit::{push_chars, push_str, render_items, render_seq};
use crate::bundle::expand::{expand_items, expand_seq, Expansion, SourceCache};
use crate::bundle::item::{cut, items_view, Item};
use crate::bundle::path::{allowed, ModulePath, UsedModuleSet};

verus! {

/// Why a bundling run fails.
#[derive(Debug)]
pub enum BundleError {
    /// The entry unit's file does not exist.
    EntryNotFound { file: Vec<char> },
    /// A used module has neither of its two possible files.
    ModuleNotFound { module: ModulePath, flat: Vec<char>, nested: Vec<char> },
    /// A used module has both of its two possible files.
    AmbiguousModule { module: ModulePath, flat: Vec<char>, nested: Vec<char> },
    /// A file is not valid source.
    ParseError { file: Vec<char> },
    /// The output file cannot be created or written.
    OutputWriteError { file: Vec<char> },
    /// The formatter run on the output failed; the output stays as written.
    FormatterError { file: Vec<char> },
}

/// The segments of a path joined by `/`.
pub open spec fn joined(p: Seq<Seq<char>>) -> Seq<char>
    decreases p.len(),
{
    if p.len() == 0 {
        Seq::empty()
    } else if p.len() == 1 {
        p[0]
    } else {
        joined(p.drop_last()) + "/"@ + p.last()
    }
}

/// `<root>/<a>/<b>/<m>.rs` for the module `a::b::m`.
pub open spec fn flat_file(root: Seq<char>, p: Seq<Seq<char>>) -> Seq<char> {
    root + "/"@ + joined(p) + ".rs"@
}

/// `<root>/<a>/<b>/<m>/mod.rs` for the module `a::b::m`.
pub open spec fn nested_file(root: Seq<char>, p: Seq<Seq<char>>) -> Seq<char> {
    root + "/"@ + joined(p) + "/mod.rs"@
}

fn push_joined(out: &mut Vec<char>, p: &ModulePath)
    ensures
        final(out)@ == old(out)@ + joined(p@),
{
    let ghost start = out@;
    let mut i: usize = 0;
    proof {
        assert(start + joined(p@.subrange(0, 0)) =~= start);
    }
    while i < p.segments.len()
        invariant
            i <= p@.len(),
            p@.len() == p.segments@.len(),
            out@ == start + joined(p@.subrange(0, i as int)),
        decreases p.segments.len() - i,
    {
        let ghost mid = out@;
        if i > 0 {
            push_str(out, "/");
        }
        push_str(out, p.segments[i].as_str());
        proof {
            let t = p@.subrange(0, i + 1);
            assert(t.drop_last() =~= p@.subrange(0, i as int));
            assert(t.last() == p.segments@[i as int]@);
            if i == 0 {
                assert(out@ =~= start + joined(t));
            } else {
                assert(out@ =~= start + joined(t));
            }
        }
        i += 1;
    }
    proof {
        assert(p@.subrange(0, p@.len() as int) == p@);
    }
}

/// The first file tried for module `p` under directory `root`.
pub fn module_flat_file(root: &Vec<char>, p: &ModulePath) -> (r: Vec<char>)
    ensures
        r@ == flat_file(root@, p@),
{
    let mut r: Vec<char> = Vec::new();
    push_chars(&mut r, root);
    push_str(&mut r, "/");
    push_joined(&mut r, p);
    push_str(&mut r, ".rs");
    proof {
        assert(r@ =~= flat_file(root@, p@));
    }
    r
}

/// The second file tried for module `p` under directory `root`.
pub fn module_nested_file(root: &Vec<char>, p: &ModulePath) -> (r: Vec<char>)
    ensures
        r@ == nested_file(root@, p@),
{
    let mut r: Vec<char> = Vec::new();
    push_chars(&mut r, root);
    push_str(&mut r, "/");
    push_joined(&mut r, p);
    push_str(&mut r, "/mod.rs");
    proof {
        assert(r@ =~= nested_file(root@, p@));
    }
    r
}

/// Which of the two files of a module holds it.
#[derive(Debug, PartialEq, Eq, Structural)]
pub enum FileChoice {
    Flat,
    Nested,
}

/// Picks the file of module `p`, given which of its two files exist: exactly one must.
pub fn choose_file(root: &Vec<char>, p: &ModulePath, flat_exists: bool, nested_exists: bool) -> (r:
    Result<FileChoice, BundleError>)
    ensures
        flat_exists && !nested_exists <==> r == Ok::<FileChoice, BundleError>(FileChoice::Flat),
        nested_exists && !flat_exists <==> r == Ok::<FileChoice, BundleError>(FileChoice::Nested),
        !flat_exists && !nested_exists <==> r is Err && r->Err_0 is ModuleNotFound,
        flat_exists && nested_exists <==> r is Err && r->Err_0 is AmbiguousModule,
        r is Err ==> match r->Err_0 {
            BundleError::ModuleNotFound { module, flat, nested } => module@ == p@ && flat@
                == flat_file(root@, p@) && nested@ == nested_file(root@, p@),
            BundleError::AmbiguousModule { module, flat, nested } => module@ == p@ && flat@
                == flat_file(root@, p@) && nested@ == nested_file(root@, p@),
            _ => false,
        },
{
    if flat_exists && !nested_exists {
        Ok(FileChoice::Flat)
    } else if nested_exists && !flat_exists {
        Ok(FileChoice::Nested)
    } else {
        let module = ModulePath { segments: crate::bundle::path::clone_names(&p.segments) };
        let flat = module_flat_file(root, p);
        let nested = module_nested_file(root, p);
        if flat_exists {
            Err(BundleError::AmbiguousModule { module, flat, nested })
        } else {
            Err(BundleError::ModuleNotFound { module, flat, nested })
        }
    }
}

/// The lint attributes of the wrapper module.
pub open spec fn wrapper_attrs() -> Seq<char> {
    "#[allow(dead_code)]\n#[allow(unused_imports)]\n#[allow(unused_macros)]\n"@
}

/// The wrapper module named `alias` around the text `body`.
pub open spec fn wrapper_text(alias: Seq<char>, body: Seq<char>) -> Seq<char> {
    wrapper_attrs() + "mod "@ + alias + " {\n"@ + body + "}\n"@
}

/// The first phase: reading the entry unit.
pub struct ProcessBinaryFile {
    alias: String,
}

/// The second phase: expanding the library, with the used modules known and the entry
/// unit written.
pub struct ProcessLibraryFile {
    alias: String,
    used_mods: UsedModuleSet,
    out: Vec<char>,
}

/// The last phase: the bundled text is complete.
pub struct BundlingCompleted {
    out: Vec<char>,
}

impl ProcessBinaryFile {
    pub closed spec fn alias(&self) -> Seq<char> {
        self.alias@
    }

    /// Starts a run for a library that entry units refer to as `alias`.
    pub fn new(alias: String) -> (r: ProcessBinaryFile)
        ensures
            r.alias() == alias@,
    {
        ProcessBinaryFile { alias }
    }

    /// Writes the entry unit, verbatim, and finds the library modules it uses from its
    /// import declarations.
    pub fn process_binary_file(self, entry: &Vec<char>, imports: &Vec<UseTree>) -> (r:
        ProcessLibraryFile)
        ensures
            r.alias() == self.alias(),
            r.used() == closure(imports@, self.alias()),
            r.text() == entry@ + "\n"@,
    {
        let used_mods = analyze(imports, &self.alias);
        let mut out: Vec<char> = Vec::new();
        push_chars(&mut out, entry);
        push_str(&mut out, "\n");
        ProcessLibraryFile { alias: self.alias, used_mods, out }
    }
}

impl ProcessLibraryFile {
    pub closed spec fn alias(&self) -> Seq<char> {
        self.alias@
    }

    /// The library paths that the entry unit uses.
    pub closed spec fn used(&self) -> Set<Seq<Seq<char>>> {
        self.used_mods@
    }

    /// The text written so far.
    pub closed spec fn text(&self) -> Seq<char> {
        self.out@
    }

    #[verifier::type_invariant]
    spec fn inv(&self) -> bool {
        self.used_mods.wf()
    }

    pub closed spec fn bound(&self) -> nat {
        self.used_mods.depth_bound()
    }

    /// Expands the library root `root` with the files in `files`, and wraps it in a module
    /// named after the alias.  Fails with the path of the first used module whose file is
    /// not in `files`: the caller reads it and tries again.  The bound on path lengths
    /// covers every allowed path, so it does not change the result.
    pub fn process_library_file(&self, root: &Vec<Item>, files: &SourceCache) -> (r: Result<
        BundlingCompleted,
        ModulePath,
    >)
        requires
            files.wf(),
        ensures
            match expand_seq(
                cut(items_view(root@)),
                Seq::empty(),
                crate::bundle::expand::Context {
                    used: self.used(),
                    files: files@,
                    bound: self.bound(),
                    alias: self.alias(),
                },
            ) {
                Expansion::Done(e) => r is Ok && r->Ok_0.text() == self.text() + wrapper_text(
                    self.alias(),
                    render_seq(e),
                ),
                Expansion::Needs(p) => r is Err && r->Err_0@ == p,
            },
            forall|p: Seq<Seq<char>>| allowed(self.used(), p) ==> p.len() <= self.bound(),
    {
        let top = ModulePath { segments: Vec::new() };
        proof {
            use_type_invariant(self);
            assert(top@ =~= Seq::<Seq<char>>::empty());
            assert forall|p: Seq<Seq<char>>| allowed(self.used(), p) implies p.len() <= self.bound() by {
                self.used_mods.lemma_allowed_bounded(p);
            }
        }
        match expand_items(root, &top, &self.used_mods, files, &self.alias) {
            Err(p) => Err(p),
            Ok(items) => {
                let mut out = crate::bundle::item::clone_chars(&self.out);
                push_str(&mut out, "#[allow(dead_code)]\n#[allow(unused_imports)]\n#[allow(unused_macros)]\n");
                push_str(&mut out, "mod ");
                push_str(&mut out, self.alias.as_str());
                push_str(&mut out, " {\n");
                render_items(&items, &mut out);
                push_str(&mut out, "}\n");
                proof {
                    assert(out@ =~= self.out@ + wrapper_text(self.alias@, render_seq(items_view(items@))));
                }
                Ok(BundlingCompleted { out })
            },
        }
    }
}

impl BundlingCompleted {
    pub closed spec fn text(&self) -> Seq<char> {
        self.out@
    }

    /// The bundled text.
    pub fn output(&self) -> (r: &Vec<char>)
        ensures
            r@ == self.text(),
    {
        &self.out
    }
}

/// The request to bundle one problem: its entry unit is `src/bin/<id>.rs`, and the
/// bundled file goes to `bundled/<id>.rs`.
#[derive(Debug)]
pub struct BundleProblemSubCmd {
    pub id: String,
}

impl BundleProblemSubCmd {
    /// `src/bin/<id>.rs`.
    pub fn entry_file(&self) -> (r: Vec<char>)
        ensures
            r@ == "src/bin/"@ + self.id@ + ".rs"@,
    {
        let mut r: Vec<char> = Vec::new();
        push_str(&mut r, "src/bin/");
        push_str(&mut r, self.id.as_str());
        push_str(&mut r, ".rs");
        r
    }

    /// `bundled/<id>.rs`.
    pub fn output_file(&self) -> (r: Vec<char>)
        ensures
            r@ == "bundled/"@ + self.id@ + ".rs"@,
    {
        let mut r: Vec<char> = Vec::new();
        push_str(&mut r, "bundled/");
        push_str(&mut r, self.id.as_str());
        push_str(&mut r, ".rs");
        r
    }
}

} // verus!
