//! Expanding the library root: used modules are inlined, the others pruned.
use vstd::prelude::*;
use crate::bundle::item::{
    clone_chars, cut, filter_attrs, item_view, items_view, kept_attrs, lemma_marker_index_bound,
    marker_index, replace_all, replaced, test_cut, Item, ItemView, UseRoot,
};
use crate::bundle::emit::push_str;
use crate::bundle::path::{allowed, names_eq, ModulePath, UsedModuleSet};

verus! {

/// A library file, read and parsed, with the module it defines.
#[derive(Debug)]
pub struct SourceFile {
    pub path: ModulePath,
    pub items: Vec<Item>,
}

/// The library files read so far, by module path.
#[derive(Debug)]
pub struct SourceCache {
    files: Vec<SourceFile>,
}

impl View for SourceCache {
    type V = Map<Seq<Seq<char>>, Seq<ItemView>>;

    closed spec fn view(&self) -> Map<Seq<Seq<char>>, Seq<ItemView>> {
        Map::new(
            |p: Seq<Seq<char>>| exists|i: int| 0 <= i < self.files@.len() && self.files@[i].path@ == p,
            |p: Seq<Seq<char>>|
                items_view(
                    self.files@[choose|i: int|
                        0 <= i < self.files@.len() && self.files@[i].path@ == p].items@,
                ),
        )
    }
}

impl SourceCache {
    /// No two files are held for the same path.
    pub closed spec fn wf(&self) -> bool {
        forall|i: int, j: int|
            0 <= i < self.files@.len() && 0 <= j < self.files@.len() && i != j
                ==> #[trigger] self.files@[i].path@ != #[trigger] self.files@[j].path@
    }

    pub fn new() -> (r: SourceCache)
        ensures
            r.wf(),
            r@ == Map::<Seq<Seq<char>>, Seq<ItemView>>::empty(),
    {
        let r = SourceCache { files: Vec::new() };
        proof {
            assert(r@ =~= Map::<Seq<Seq<char>>, Seq<ItemView>>::empty());
        }
        r
    }

    fn position(&self, p: &ModulePath) -> (r: Option<usize>)
        ensures
            match r {
                Some(i) => i < self.files@.len() && self.files@[i as int].path@ == p@,
                None => forall|i: int|
                    0 <= i < self.files@.len() ==> #[trigger] self.files@[i].path@ != p@,
            },
    {
        let mut i: usize = 0;
        while i < self.files.len()
            invariant
                i <= self.files@.len(),
                forall|j: int| 0 <= j < i ==> #[trigger] self.files@[j].path@ != p@,
            decreases self.files.len() - i,
        {
            if names_eq(&self.files[i].path.segments, &p.segments) {
                return Some(i);
            }
            i += 1;
        }
        None
    }

    /// Whether a file is held for `p`.
    pub fn contains(&self, p: &ModulePath) -> (r: bool)
        ensures
            r == self@.contains_key(p@),
    {
        self.position(p).is_some()
    }

    /// The items of the file held for `p`.
    pub fn find(&self, p: &ModulePath) -> (r: Option<&Vec<Item>>)
        requires
            self.wf(),
        ensures
            match r {
                Some(v) => self@.contains_key(p@) && self@[p@] == items_view(v@),
                None => !self@.contains_key(p@),
            },
    {
        match self.position(p) {
            Some(i) => {
                proof {
                    let j = choose|j: int| 0 <= j < self.files@.len() && self.files@[j].path@ == p@;
                    assert(self.files@[j].path@ == self.files@[i as int].path@);
                }
                Some(&self.files[i].items)
            },
            None => None,
        }
    }

    /// Holds `file` for its path, unless a file is held for that path already.
    pub fn add(&mut self, file: SourceFile)
        requires
            old(self).wf(),
        ensures
            final(self).wf(),
            old(self)@.contains_key(file.path@) ==> final(self)@ == old(self)@,
            !old(self)@.contains_key(file.path@) ==> final(self)@ == old(self)@.insert(
                file.path@,
                items_view(file.items@),
            ),
    {
        if self.contains(&file.path) {
            return;
        }
        let ghost before = self@;
        let ghost old_files = self.files@;
        let ghost fp = file.path@;
        let ghost fi = items_view(file.items@);
        self.files.push(file);
        proof {
            let n = old_files.len() as int;
            assert(self.files@ == old_files.push(file));
            assert forall|p: Seq<Seq<char>>| #[trigger]
                self@.contains_key(p) == before.insert(fp, fi).contains_key(p) by {
                if before.contains_key(p) {
                    let i = choose|i: int| 0 <= i < n && old_files[i].path@ == p;
                    assert(self.files@[i].path@ == p);
                }
                if p == fp {
                    assert(self.files@[n].path@ == p);
                }
                if self@.contains_key(p) {
                    let i = choose|i: int| 0 <= i < n + 1 && self.files@[i].path@ == p;
                    if i < n {
                        assert(old_files[i].path@ == p);
                    }
                }
            }
            assert forall|p: Seq<Seq<char>>| #[trigger] self@.contains_key(p) implies self@[p]
                == before.insert(fp, fi)[p] by {
                let j = choose|j: int| 0 <= j < n + 1 && self.files@[j].path@ == p;
                if p == fp {
                    assert(self.files@[n].path@ == p);
                    assert(j == n);
                } else {
                    assert(j < n);
                    let k = choose|k: int| 0 <= k < n && old_files[k].path@ == p;
                    assert(old_files[k] == self.files@[k]);
                    assert(j == k);
                }
            }
            assert(self@ =~= before.insert(fp, fi));
        }
    }
}

/// What bundling reads while it expands: the used paths, the files read so far, a bound
/// on the length of the used paths, and the name of the wrapper module.
pub struct Context {
    pub used: Set<Seq<Seq<char>>>,
    pub files: Map<Seq<Seq<char>>, Seq<ItemView>>,
    pub bound: nat,
    /// The name of the wrapper module.
    pub alias: Seq<char>,
}

/// How macros refer to the crate that defines them.
pub open spec fn macro_crate_path() -> Seq<char> {
    "$crate::"@
}

/// The path to the library inside the bundled file.
pub open spec fn wrapped_path(alias: Seq<char>) -> Seq<char> {
    "crate::"@ + alias + "::"@
}

/// The result of expanding: the items, or the path of the first used module whose file
/// has not been read yet.
pub enum Expansion {
    Done(Seq<ItemView>),
    Needs(Seq<Seq<char>>),
}

pub open spec fn measure(prefix: Seq<Seq<char>>, bound: nat) -> nat {
    if prefix.len() <= bound {
        (bound - prefix.len()) as nat
    } else {
        0
    }
}

/// A use item at nesting depth `depth`: `crate::` becomes `depth` times `super::`.
pub open spec fn rewrite_use(item: ItemView, depth: nat) -> ItemView {
    match item {
        ItemView::Use { attrs, vis, crate_rooted, hops, tail } => ItemView::Use {
            attrs: kept_attrs(attrs),
            vis,
            crate_rooted: false,
            hops: if crate_rooted {
                depth
            } else {
                hops
            },
            tail,
        },
        _ => item,
    }
}

/// A module declaration given the expanded content `inner`.
pub open spec fn resolved_mod(item: ItemView, inner: Seq<ItemView>) -> ItemView {
    match item {
        ItemView::Mod { attrs, vis, name, .. } => ItemView::Mod {
            attrs: kept_attrs(attrs),
            vis,
            name,
            content: Some(inner),
        },
        _ => item,
    }
}

/// The items `s` of the module at `prefix`, expanded: each module declaration whose path
/// is used, or leads to a used path, gets the expanded content of its file; the others are
/// dropped; attributes are filtered, imports from the crate root are made relative, and
/// macros' `$crate::` paths are routed through the wrapper module.
pub open spec fn expand_seq(s: Seq<ItemView>, prefix: Seq<Seq<char>>, ctx: Context) -> Expansion
    decreases measure(prefix, ctx.bound), s,
    via expand_seq_decreases
{
    if s.len() == 0 {
        Expansion::Done(Seq::empty())
    } else {
        match expand_seq(s.drop_last(), prefix, ctx) {
            Expansion::Needs(p) => Expansion::Needs(p),
            Expansion::Done(head) => {
                let item = s.last();
                match item {
                    ItemView::Mod { name, content, .. } => {
                        let p = prefix.push(name);
                        if content is Some {
                            match expand_seq(cut(content->Some_0), p, ctx) {
                                Expansion::Needs(q) => Expansion::Needs(q),
                                Expansion::Done(inner) => Expansion::Done(
                                    head.push(resolved_mod(item, inner)),
                                ),
                            }
                        } else if !allowed(ctx.used, p) || p.len() > ctx.bound {
                            Expansion::Done(head)
                        } else if !ctx.files.contains_key(p) {
                            Expansion::Needs(p)
                        } else {
                            match expand_seq(cut(ctx.files[p]), p, ctx) {
                                Expansion::Needs(q) => Expansion::Needs(q),
                                Expansion::Done(inner) => Expansion::Done(
                                    head.push(resolved_mod(item, inner)),
                                ),
                            }
                        }
                    },
                    ItemView::Use { .. } => Expansion::Done(
                        head.push(rewrite_use(item, prefix.len())),
                    ),
                    ItemView::Other { attrs, text } => Expansion::Done(
                        head.push(
                            ItemView::Other {
                                attrs: kept_attrs(attrs),
                                text: replaced(text, macro_crate_path(), wrapped_path(ctx.alias)),
                            },
                        ),
                    ),
                }
            },
        }
    }
}

#[via_fn]
proof fn expand_seq_decreases(s: Seq<ItemView>, prefix: Seq<Seq<char>>, ctx: Context) {
    if s.len() > 0 {
        assert(decreases_to!(s => s.drop_last()));
        let item = s.last();
        assert(decreases_to!(s => item));
        if let ItemView::Mod { name, content: Some(c), .. } = item {
            lemma_marker_index_bound(c);
            let k = marker_index(c);
            assert(decreases_to!(item => c));
            if k < c.len() {
                assert(decreases_to!(c => c.subrange(0, k as int)));
            } else {
                assert(c.subrange(0, k as int) == c);
            }
        }
    }
}

/// The context that an expansion reads.
pub open spec fn context_of(used: &UsedModuleSet, files: &SourceCache, alias: &String) -> Context {
    Context { used: used@, files: files@, bound: used.depth_bound(), alias: alias@ }
}

/// Once an expansion needs a file, expanding more items needs the same file.
pub proof fn lemma_needs_extends(s: Seq<ItemView>, j: int, prefix: Seq<Seq<char>>, ctx: Context)
    requires
        0 <= j <= s.len(),
        expand_seq(s.subrange(0, j), prefix, ctx) is Needs,
    ensures
        expand_seq(s, prefix, ctx) == expand_seq(s.subrange(0, j), prefix, ctx),
    decreases s.len() - j,
{
    if j < s.len() {
        let t = s.subrange(0, j + 1);
        assert(t.drop_last() == s.subrange(0, j));
        lemma_needs_extends(s, j + 1, prefix, ctx);
    } else {
        assert(s.subrange(0, j) == s);
    }
}

proof fn lemma_content_view(v: Vec<Item>)
    ensures
        Seq::new(
            v@.len(),
            |i: int|
                if 0 <= i < v@.len() {
                    item_view(v[i])
                } else {
                    ItemView::Other { attrs: Seq::empty(), text: Seq::empty() }
                },
        ) == items_view(v@),
{
    assert(Seq::new(
        v@.len(),
        |i: int|
            if 0 <= i < v@.len() {
                item_view(v[i])
            } else {
                ItemView::Other { attrs: Seq::empty(), text: Seq::empty() }
            },
    ) =~= items_view(v@));
}

/// Expands the items of the module at `prefix` (the library root when `prefix` is empty):
/// drops what follows the first test-only item, inlines the file of each used module
/// declaration, drops the others, filters attributes and makes crate-rooted imports
/// relative, and routes macros' `$crate::` paths through the wrapper module `alias`.  Fails
/// with the path of the first used module whose file is not in `files`.
pub fn expand_items(
    items: &Vec<Item>,
    prefix: &ModulePath,
    used: &UsedModuleSet,
    files: &SourceCache,
    alias: &String,
) -> (r: Result<Vec<Item>, ModulePath>)
    requires
        used.wf(),
        files.wf(),
    ensures
        match r {
            Ok(v) => expand_seq(cut(items_view(items@)), prefix@, context_of(used, files, alias))
                == Expansion::Done(items_view(v@)),
            Err(p) => expand_seq(cut(items_view(items@)), prefix@, context_of(used, files, alias))
                == Expansion::Needs(p@),
        },
    decreases measure(prefix@, used.depth_bound()), items,
{
    let ghost ctx = context_of(used, files, alias);
    let k = test_cut(items);
    let ghost s = cut(items_view(items@));
    let mut out: Vec<Item> = Vec::new();
    let mut i: usize = 0;
    proof {
        assert(s.subrange(0, 0) =~= Seq::<ItemView>::empty());
        assert(items_view(out@) =~= Seq::<ItemView>::empty());
    }
    while i < k
        invariant
            k <= items@.len(),
            i <= k,
            used.wf(),
            files.wf(),
            ctx == context_of(used, files, alias),
            s == items_view(items@).subrange(0, k as int),
            s == cut(items_view(items@)),
            expand_seq(s.subrange(0, i as int), prefix@, ctx) == Expansion::Done(items_view(out@)),
        decreases k - i,
    {
        let ghost t = s.subrange(0, i + 1);
        let ghost before = out@;
        proof {
            assert(t.drop_last() == s.subrange(0, i as int));
            assert(t.last() == item_view(items@[i as int]));
        }
        match &items[i] {
            Item::Mod { attrs, vis, name, content } => {
                let p = prefix.child(name.clone());
                match content {
                    Some(c) => {
                        proof {
                            assert(decreases_to!(*items => items@[i as int]));
                            if prefix@.len() > used.depth_bound() {
                                assert(measure(p@, used.depth_bound()) == 0);
                            }
                        }
                        match expand_items(c, &p, used, files, alias) {
                            Err(q) => {
                                proof {
                                    lemma_content_view(*c);
                                    let iv = item_view(items@[i as int]);
                                    assert(iv->Mod_content == Some(items_view(c@)));
                                    assert(iv->Mod_name == name@);
                                    assert(p@ == prefix@.push(name@));
                                    assert(expand_seq(t, prefix@, ctx) == Expansion::Needs(q@));
                                    lemma_needs_extends(s, i + 1, prefix@, ctx);
                                    assert(s.subrange(0, k as int) == s);
                                }
                                return Err(q);
                            },
                            Ok(inner) => {
                                let item = Item::Mod {
                                    attrs: filter_attrs(attrs),
                                    vis: clone_chars(vis),
                                    name: name.clone(),
                                    content: Some(inner),
                                };
                                proof {
                                    lemma_content_view(*c);
                                    lemma_content_view(inner);
                                    let iv = item_view(items@[i as int]);
                                    assert(iv->Mod_content == Some(items_view(c@)));
                                    assert(p@ == prefix@.push(name@));
                                    assert(item_view(item)->Mod_attrs == kept_attrs(iv->Mod_attrs));
                                    assert(item_view(item)->Mod_vis == iv->Mod_vis);
                                    assert(item_view(item)->Mod_name == iv->Mod_name);
                                    assert(item_view(item)->Mod_content == Some(items_view(inner@)));
                                    assert(item_view(item) == resolved_mod(iv, items_view(inner@)));
                                }
                                out.push(item);
                                proof {
                                    assert(out@ == before.push(item));
                                    assert(items_view(out@) =~= items_view(before).push(item_view(item)));
                                }
                            },
                        }
                    },
                    None => {
                        proof {
                            assert(p@ == prefix@.push(name@));
                        }
                        if used.is_allowed(&p) {
                            proof {
                                used.lemma_allowed_bounded(p@);
                            }
                            match files.find(&p) {
                                None => {
                                    proof {
                                        lemma_needs_extends(s, i + 1, prefix@, ctx);
                                        assert(s.subrange(0, k as int) == s);
                                    }
                                    return Err(p);
                                },
                                Some(v) => {
                                    match expand_items(v, &p, used, files, alias) {
                                        Err(q) => {
                                            proof {
                                                lemma_needs_extends(s, i + 1, prefix@, ctx);
                                                assert(s.subrange(0, k as int) == s);
                                            }
                                            return Err(q);
                                        },
                                        Ok(inner) => {
                                            let item = Item::Mod {
                                                attrs: filter_attrs(attrs),
                                                vis: clone_chars(vis),
                                                name: name.clone(),
                                                content: Some(inner),
                                            };
                                            proof {
                                                lemma_content_view(inner);
                                                let iv = item_view(items@[i as int]);
                                                assert(p@ == prefix@.push(name@));
                                                assert(item_view(item)->Mod_attrs == kept_attrs(iv->Mod_attrs));
                                                assert(item_view(item)->Mod_vis == iv->Mod_vis);
                                                assert(item_view(item)->Mod_name == iv->Mod_name);
                                                assert(item_view(item)->Mod_content == Some(items_view(inner@)));
                                                assert(item_view(item) == resolved_mod(iv, items_view(inner@)));
                                            }
                                            out.push(item);
                                            proof {
                                                assert(out@ == before.push(item));
                                                assert(items_view(out@) =~= items_view(before).push(item_view(item)));
                                            }
                                        },
                                    }
                                },
                            }
                        }
                    },
                }
            },
            Item::Use { attrs, vis, root, tail } => {
                let hops = match root {
                    UseRoot::Crate => prefix.len(),
                    UseRoot::Relative { hops } => *hops,
                };
                out.push(
                    Item::Use {
                        attrs: filter_attrs(attrs),
                        vis: clone_chars(vis),
                        root: UseRoot::Relative { hops },
                        tail: clone_chars(tail),
                    },
                );
            },
            Item::Other { attrs, text } => {
                let mut pat: Vec<char> = Vec::new();
                push_str(&mut pat, "$crate::");
                let mut rep: Vec<char> = Vec::new();
                push_str(&mut rep, "crate::");
                push_str(&mut rep, alias.as_str());
                push_str(&mut rep, "::");
                out.push(Item::Other { attrs: filter_attrs(attrs), text: replace_all(text, &pat, &rep) });
            },
        }
        proof {
            if out@.len() == before.len() {
                assert(items_view(out@) == items_view(before));
            } else {
                assert(out@ == before.push(out@.last()));
                assert(items_view(out@) =~= items_view(before).push(item_view(out@.last())));
            }
        }
        i += 1;
    }
    proof {
        assert(s.subrange(0, k as int) == s);
    }
    Ok(out)
}

} // verus!
