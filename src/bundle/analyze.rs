//! Finding the library modules that an entry unit imports.
use vstd::prelude::*;
use crate::bundle::path::{clone_names, names_view, ModulePath, UsedModuleSet};

verus! {

/// The tree of an import declaration: `a::b::{c, d as e, f::*}`.
#[derive(Debug)]
pub enum UseTree {
    Path { ident: String, tree: Box<UseTree> },
    Name { ident: String },
    Rename { ident: String, rename: String },
    Glob,
    Group { items: Vec<UseTree> },
}

/// The paths that the tree `t`, read below the path `prefix`, names: each leaf name
/// (or the original name of a rename) ends a path; a glob ends one at its parent.
pub open spec fn yields(t: UseTree, prefix: Seq<Seq<char>>, q: Seq<Seq<char>>) -> bool
    decreases t,
{
    match t {
        UseTree::Path { ident, tree } => yields(*tree, prefix.push(ident@), q),
        UseTree::Name { ident } => q == prefix.push(ident@),
        UseTree::Rename { ident, .. } => q == prefix.push(ident@),
        UseTree::Glob => q == prefix,
        UseTree::Group { items } => exists|i: int|
            0 <= i < items@.len() && yields(#[trigger] items@[i], prefix, q),
    }
}

/// The library paths that one import names: an import whose first segment is the library
/// alias names the non-empty paths that the rest of its tree yields; any other names none.
pub open spec fn import_paths(t: UseTree, alias: Seq<char>, q: Seq<Seq<char>>) -> bool {
    match t {
        UseTree::Path { ident, tree } => ident@ == alias && q.len() > 0 && yields(*tree, seq![], q),
        _ => false,
    }
}

/// The closure of an entry unit: the paths that its imports name.
pub open spec fn closure(imports: Seq<UseTree>, alias: Seq<char>) -> Set<Seq<Seq<char>>> {
    Set::new(
        |q: Seq<Seq<char>>|
            exists|k: int| 0 <= k < imports.len() && import_paths(#[trigger] imports[k], alias, q),
    )
}

fn collect(t: &UseTree, prefix: &Vec<String>, set: &mut UsedModuleSet)
    requires
        old(set).wf(),
    ensures
        final(set).wf(),
        final(set)@ == old(set)@.union(
            Set::new(|q: Seq<Seq<char>>| q.len() > 0 && yields(*t, names_view(prefix@), q)),
        ),
    decreases t,
{
    let ghost pre = names_view(prefix@);
    match t {
        UseTree::Path { ident, tree } => {
            let mut p = clone_names(prefix);
            p.push(ident.clone());
            proof {
                crate::bundle::path::lemma_names_push(prefix@, *ident);
                assert(names_view(p@) == pre.push(ident@));
            }
            collect(tree, &p, set);
            proof {
                assert(final(set)@ =~= old(set)@.union(
                    Set::new(|q: Seq<Seq<char>>| q.len() > 0 && yields(*t, pre, q)),
                ));
            }
        },
        UseTree::Name { ident } | UseTree::Rename { ident, .. } => {
            let mut p = clone_names(prefix);
            let ghost p0 = p@;
            p.push(ident.clone());
            proof {
                crate::bundle::path::lemma_names_push(p0, *ident);
                assert(names_view(p@) == pre.push(ident@));
            }
            let ghost before = set@;
            set.insert(ModulePath { segments: p });
            proof {
                assert(set@ =~= before.union(
                    Set::new(|q: Seq<Seq<char>>| q.len() > 0 && yields(*t, pre, q)),
                ));
            }
        },
        UseTree::Glob => {
            let ghost before = set@;
            if prefix.len() > 0 {
                set.insert(ModulePath { segments: clone_names(prefix) });
            }
            proof {
                assert(set@ =~= before.union(
                    Set::new(|q: Seq<Seq<char>>| q.len() > 0 && yields(*t, pre, q)),
                ));
            }
        },
        UseTree::Group { items } => {
            let ghost start = set@;
            let mut i: usize = 0;
            while i < items.len()
                invariant
                    i <= items@.len(),
                    *t == (UseTree::Group { items: *items }),
                    set.wf(),
                    pre == names_view(prefix@),
                    set@ == start.union(
                        Set::new(
                            |q: Seq<Seq<char>>|
                                q.len() > 0 && exists|j: int|
                                    0 <= j < i && yields(#[trigger] items@[j], pre, q),
                        ),
                    ),
                decreases items.len() - i,
            {
                proof {
                    assert(decreases_to!(*items => items[i as int]));
                    assert(t->Group_items == *items);
                    assert(decreases_to!(*t => t->Group_items));
                    assert(decreases_to!(*t => items@[i as int]));
                }
                let ghost before = set@;
                collect(&items[i], prefix, set);
                proof {
                    assert forall|q: Seq<Seq<char>>| #[trigger] set@.contains(q) == start.union(
                        Set::new(
                            |q: Seq<Seq<char>>|
                                q.len() > 0 && exists|j: int|
                                    0 <= j < i + 1 && yields(#[trigger] items@[j], pre, q),
                        ),
                    ).contains(q) by {
                        if q.len() > 0 && yields(items@[i as int], pre, q) {
                            assert(exists|j: int| 0 <= j < i + 1 && yields(#[trigger] items@[j], pre, q));
                        }
                        if q.len() > 0 && exists|j: int| 0 <= j < i + 1 && yields(#[trigger] items@[j], pre, q) {
                            let j = choose|j: int| 0 <= j < i + 1 && yields(#[trigger] items@[j], pre, q);
                            if j < i {
                                assert(before.contains(q));
                            }
                        }
                    }
                    assert(set@ =~= start.union(
                        Set::new(
                            |q: Seq<Seq<char>>|
                                q.len() > 0 && exists|j: int|
                                    0 <= j < i + 1 && yields(#[trigger] items@[j], pre, q),
                        ),
                    ));
                }
                i += 1;
            }
            proof {
                assert(set@ =~= start.union(
                    Set::new(|q: Seq<Seq<char>>| q.len() > 0 && yields(*t, pre, q)),
                ));
            }
        },
    }
}

/// The closure of an entry unit whose import declarations are `imports`, with `alias` the
/// name by which it refers to the library.
pub fn analyze(imports: &Vec<UseTree>, alias: &String) -> (r: UsedModuleSet)
    ensures
        r.wf(),
        r@ == closure(imports@, alias@),
{
    let mut set = UsedModuleSet::new();
    let empty: Vec<String> = Vec::new();
    let mut k: usize = 0;
    proof {
        assert(names_view(empty@) =~= Seq::<Seq<char>>::empty());
    }
    while k < imports.len()
        invariant
            k <= imports@.len(),
            set.wf(),
            names_view(empty@) == Seq::<Seq<char>>::empty(),
            set@ == Set::new(
                |q: Seq<Seq<char>>|
                    exists|j: int| 0 <= j < k && import_paths(#[trigger] imports@[j], alias@, q),
            ),
        decreases imports.len() - k,
    {
        let ghost before = set@;
        if let UseTree::Path { ident, tree } = &imports[k] {
            if *ident == *alias {
                collect(tree, &empty, &mut set);
            }
        }
        proof {
            assert forall|q: Seq<Seq<char>>| #[trigger] set@.contains(q) == (exists|j: int|
                0 <= j < k + 1 && import_paths(#[trigger] imports@[j], alias@, q)) by {
                if exists|j: int| 0 <= j < k + 1 && import_paths(#[trigger] imports@[j], alias@, q) {
                    let j = choose|j: int| 0 <= j < k + 1 && import_paths(#[trigger] imports@[j], alias@, q);
                    if j < k {
                        assert(before.contains(q));
                    }
                }
                if set@.contains(q) && !before.contains(q) {
                    assert(import_paths(imports@[k as int], alias@, q));
                }
            }
            assert(set@ =~= Set::new(
                |q: Seq<Seq<char>>|
                    exists|j: int| 0 <= j < k + 1 && import_paths(#[trigger] imports@[j], alias@, q),
            ));
        }
        k += 1;
    }
    proof {
        assert(set@ =~= closure(imports@, alias@));
    }
    set
}

} // verus!
