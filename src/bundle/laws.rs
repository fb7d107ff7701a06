//! What holds of every bundling run.
use vstd::prelude::*;
use crate::bundle::emit::render_seq;
use crate::bundle::expand::{
    expand_seq, macro_crate_path, measure, resolved_mod, rewrite_use, wrapped_path, Context,
    Expansion,
};
use crate::bundle::item::{
    attrs_of, cut, is_dropped_name, is_test_marker, kept_attrs, lemma_marker_index_bound,
    marker_index, replaced, AttrView, ItemView,
};
use crate::bundle::path::allowed;
use crate::bundle::pipeline::wrapper_text;

verus! {

/// No attribute in `s` is one that bundling removes.
pub open spec fn clean_attrs(s: Seq<AttrView>) -> bool {
    forall|j: int| 0 <= j < s.len() ==> !is_dropped_name(#[trigger] s[j].name)
}

/// Every item of `s`, at any depth, carries only attributes that bundling keeps.
pub open spec fn attrs_clean(s: Seq<ItemView>) -> bool
    decreases s,
    via nested_decreases
{
    s.len() == 0 || (attrs_clean(s.drop_last()) && clean_attrs(attrs_of(s.last())) && match s.last() {
        ItemView::Mod { content: Some(c), .. } => attrs_clean(c),
        _ => true,
    })
}

/// Every module of `s`, at any depth below `prefix`, has a path that is used or leads
/// to a used path.
pub open spec fn mods_allowed(s: Seq<ItemView>, prefix: Seq<Seq<char>>, used: Set<Seq<Seq<char>>>) -> bool
    decreases s,
    via mods_allowed_decreases
{
    s.len() == 0 || (mods_allowed(s.drop_last(), prefix, used) && match s.last() {
        ItemView::Mod { name, content, .. } => allowed(used, prefix.push(name)) && match content {
            Some(c) => mods_allowed(c, prefix.push(name), used),
            None => true,
        },
        _ => true,
    })
}

#[via_fn]
proof fn nested_decreases(s: Seq<ItemView>) {
    if s.len() > 0 {
        assert(decreases_to!(s => s.drop_last()));
        let item = s.last();
        assert(decreases_to!(s => item));
    }
}

#[via_fn]
proof fn mods_allowed_decreases(s: Seq<ItemView>, prefix: Seq<Seq<char>>, used: Set<Seq<Seq<char>>>) {
    if s.len() > 0 {
        assert(decreases_to!(s => s.drop_last()));
        let item = s.last();
        assert(decreases_to!(s => item));
    }
}

/// No module of `s` is written inline: each is a declaration whose content is in a file.
pub open spec fn inline_free(s: Seq<ItemView>) -> bool {
    forall|j: int| 0 <= j < s.len() ==> !(#[trigger] s[j] matches ItemView::Mod { content: Some(_), .. })
}

/// No file of `files` holds an inline module.
pub open spec fn files_inline_free(files: Map<Seq<Seq<char>>, Seq<ItemView>>) -> bool {
    forall|p: Seq<Seq<char>>| #[trigger] files.contains_key(p) ==> inline_free(files[p])
}

/// The import items of `s`, in their order.
pub open spec fn uses(s: Seq<ItemView>) -> Seq<ItemView>
    decreases s.len(),
{
    if s.len() == 0 {
        s
    } else if s.last() is Use {
        uses(s.drop_last()).push(s.last())
    } else {
        uses(s.drop_last())
    }
}

/// Annotation filtering: the attributes kept are exactly those that are not
/// documentation, lint, conditional or warning ones, in their order.
pub proof fn lemma_kept_attrs(s: Seq<AttrView>)
    ensures
        kept_attrs(s) == s.filter(|a: AttrView| !is_dropped_name(a.name)),
        clean_attrs(kept_attrs(s)),
    decreases s.len(),
{
    reveal(Seq::filter);
    if s.len() > 0 {
        lemma_kept_attrs(s.drop_last());
    }
}

/// Test-code exclusion: what follows a test-only item in a file is never read.
pub proof fn lemma_test_code_excluded(s: Seq<ItemView>, m: ItemView, t: Seq<ItemView>)
    requires
        is_test_marker(m),
    ensures
        marker_index(s.push(m) + t) == marker_index(s),
        cut(s.push(m) + t) == cut(s),
    decreases s.len(),
{
    let u = s.push(m) + t;
    if s.len() == 0 {
        assert(u[0] == m);
    } else {
        assert(u[0] == s[0]);
        if !is_test_marker(s[0]) {
            assert(u.drop_first() == s.drop_first().push(m) + t);
            lemma_test_code_excluded(s.drop_first(), m, t);
            lemma_marker_index_bound(s.drop_first());
        }
    }
    lemma_marker_index_bound(s);
    assert(marker_index(u) == marker_index(s));
    assert(cut(u) =~= cut(s));
}

proof fn lemma_cut_inline_free(s: Seq<ItemView>)
    requires
        inline_free(s),
    ensures
        inline_free(cut(s)),
{
    lemma_marker_index_bound(s);
    assert forall|j: int| 0 <= j < cut(s).len() implies !(#[trigger] cut(s)[j] matches ItemView::Mod {
        content: Some(_),
        ..
    }) by {
        assert(cut(s)[j] == s[j]);
    }
}

/// Pruning correctness and annotation filtering over a whole expansion: no output item
/// carries a removed attribute, and, when no library module is written inline, every
/// module in the output is used or leads to a used module.
pub proof fn lemma_expansion_output(s: Seq<ItemView>, prefix: Seq<Seq<char>>, ctx: Context)
    ensures
        expand_seq(s, prefix, ctx) matches Expansion::Done(out) ==> attrs_clean(out) && (
        inline_free(s) && files_inline_free(ctx.files) ==> mods_allowed(out, prefix, ctx.used)),
    decreases measure(prefix, ctx.bound), s,
{
    if s.len() > 0 {
        assert(decreases_to!(s => s.drop_last()));
        lemma_expansion_output(s.drop_last(), prefix, ctx);
        if inline_free(s) {
            assert forall|j: int| 0 <= j < s.drop_last().len() implies !(#[trigger] s.drop_last()[j] matches ItemView::Mod {
                content: Some(_),
                ..
            }) by {
                assert(s.drop_last()[j] == s[j]);
            }
        }
        let item = s.last();
        assert(decreases_to!(s => item));
        if let Expansion::Done(head) = expand_seq(s.drop_last(), prefix, ctx) {
            lemma_kept_attrs(attrs_of(item));
            match item {
                ItemView::Mod { attrs, vis, name, content } => {
                    let p = prefix.push(name);
                    if let Some(c) = content {
                        lemma_marker_index_bound(c);
                        let k = marker_index(c);
                        assert(decreases_to!(item => c));
                        if k < c.len() {
                            assert(decreases_to!(c => c.subrange(0, k as int)));
                        } else {
                            assert(c.subrange(0, k as int) == c);
                        }
                        if prefix.len() > ctx.bound {
                            assert(measure(p, ctx.bound) == 0);
                        }
                        lemma_expansion_output(cut(c), p, ctx);
                        if let Expansion::Done(inner) = expand_seq(cut(c), p, ctx) {
                            let out = head.push(resolved_mod(item, inner));
                            assert(out.drop_last() == head);
                        }
                    } else if allowed(ctx.used, p) && p.len() <= ctx.bound && ctx.files.contains_key(p) {
                        lemma_expansion_output(cut(ctx.files[p]), p, ctx);
                        if files_inline_free(ctx.files) {
                            lemma_cut_inline_free(ctx.files[p]);
                        }
                        if let Expansion::Done(inner) = expand_seq(cut(ctx.files[p]), p, ctx) {
                            let out = head.push(resolved_mod(item, inner));
                            assert(out.drop_last() == head);
                        }
                    }
                },
                ItemView::Use { .. } => {
                    let out = head.push(rewrite_use(item, prefix.len()));
                    assert(out.drop_last() == head);
                },
                ItemView::Other { attrs, text } => {
                    let out = head.push(
                        ItemView::Other {
                            attrs: kept_attrs(attrs),
                            text: replaced(text, macro_crate_path(), wrapped_path(ctx.alias)),
                        },
                    );
                    assert(out.drop_last() == head);
                },
            }
        }
    }
}

/// Depth-correct rewriting: the imports of a module expanded at depth `prefix.len()` come
/// out in their order; each crate-rooted one becomes relative with `prefix.len()` more
/// `super::` hops than it had, and the others keep their hops.
pub proof fn lemma_depth_rewriting(s: Seq<ItemView>, prefix: Seq<Seq<char>>, ctx: Context)
    requires
        forall|j: int|
            0 <= j < s.len() && (#[trigger] s[j] matches ItemView::Use { crate_rooted: true, .. })
                ==> s[j]->Use_hops == 0,
    ensures
        expand_seq(s, prefix, ctx) matches Expansion::Done(out) ==> {
            &&& uses(out).len() == uses(s).len()
            &&& forall|j: int|
                0 <= j < uses(s).len() ==> {
                    &&& !(#[trigger] uses(out)[j])->Use_crate_rooted
                    &&& uses(out)[j]->Use_hops == uses(s)[j]->Use_hops + if uses(s)[j]->Use_crate_rooted {
                        prefix.len()
                    } else {
                        0
                    }
                    &&& uses(out)[j]->Use_tail == uses(s)[j]->Use_tail
                }
        },
    decreases s.len(),
{
    if s.len() > 0 {
        let d = s.drop_last();
        assert forall|j: int|
            0 <= j < d.len() && (#[trigger] d[j] matches ItemView::Use { crate_rooted: true, .. })
                implies d[j]->Use_hops == 0 by {
            assert(d[j] == s[j]);
        }
        lemma_depth_rewriting(d, prefix, ctx);
        lemma_uses_are_uses(s);
        lemma_uses_are_uses(d);
        if let Expansion::Done(head) = expand_seq(d, prefix, ctx) {
            lemma_uses_are_uses(head);
            let item = s.last();
            match expand_seq(s, prefix, ctx) {
                Expansion::Done(out) => {
                    if item is Use {
                        assert(out == head.push(rewrite_use(item, prefix.len())));
                        assert(out.drop_last() == head);
                        assert(s[s.len() - 1] == item);
                    } else if out.len() != head.len() {
                        assert(out.drop_last() == head);
                        assert(!(out.last() is Use));
                    }
                },
                _ => {},
            }
        }
    }
}

/// The items that `uses` picks are import items, taken from `s`.
pub proof fn lemma_uses_are_uses(s: Seq<ItemView>)
    ensures
        uses(s).len() <= s.len(),
        forall|j: int| 0 <= j < uses(s).len() ==> #[trigger] uses(s)[j] is Use,
    decreases s.len(),
{
    if s.len() > 0 {
        lemma_uses_are_uses(s.drop_last());
    }
}

/// Every path that the set allows is within the bound of the context.
pub open spec fn bound_covers(ctx: Context) -> bool {
    forall|p: Seq<Seq<char>>| allowed(ctx.used, p) ==> p.len() <= ctx.bound
}

/// Two contexts that differ only in a bound that covers the used paths expand alike.
pub proof fn lemma_bound_irrelevant(s: Seq<ItemView>, prefix: Seq<Seq<char>>, c1: Context, c2: Context)
    requires
        c1.used == c2.used,
        c1.files == c2.files,
        c1.alias == c2.alias,
        bound_covers(c1),
        bound_covers(c2),
    ensures
        expand_seq(s, prefix, c1) == expand_seq(s, prefix, c2),
    decreases measure(prefix, c1.bound), s,
{
    if s.len() > 0 {
        assert(decreases_to!(s => s.drop_last()));
        lemma_bound_irrelevant(s.drop_last(), prefix, c1, c2);
        let item = s.last();
        assert(decreases_to!(s => item));
        if let ItemView::Mod { name, content, .. } = item {
            let p = prefix.push(name);
            if let Some(c) = content {
                lemma_marker_index_bound(c);
                let k = marker_index(c);
                assert(decreases_to!(item => c));
                if k < c.len() {
                    assert(decreases_to!(c => c.subrange(0, k as int)));
                } else {
                    assert(c.subrange(0, k as int) == c);
                }
                if prefix.len() > c1.bound {
                    assert(measure(p, c1.bound) == 0);
                }
                lemma_bound_irrelevant(cut(c), p, c1, c2);
            } else if allowed(c1.used, p) && c1.files.contains_key(p) {
                lemma_bound_irrelevant(cut(c1.files[p]), p, c1, c2);
            }
        }
    }
}

/// Idempotence: two runs on the same entry unit (the same text written, the same used
/// paths, the same alias) against the same library files produce the same text.
pub proof fn lemma_bundling_idempotent(
    used: Set<Seq<Seq<char>>>,
    files: Map<Seq<Seq<char>>, Seq<ItemView>>,
    alias: Seq<char>,
    entry: Seq<char>,
    root: Seq<ItemView>,
    bound1: nat,
    bound2: nat,
)
    requires
        forall|p: Seq<Seq<char>>| allowed(used, p) ==> p.len() <= bound1 && p.len() <= bound2,
    ensures
        ({
            let c1 = Context { used, files, bound: bound1, alias };
            let c2 = Context { used, files, bound: bound2, alias };
            &&& expand_seq(cut(root), Seq::empty(), c1) == expand_seq(cut(root), Seq::empty(), c2)
            &&& expand_seq(cut(root), Seq::empty(), c1) matches Expansion::Done(e) ==> entry + "\n"@
                + wrapper_text(alias, render_seq(e)) == entry + "\n"@ + wrapper_text(
                alias,
                render_seq(expand_seq(cut(root), Seq::empty(), c2)->Done_0),
            )
        }),
{
    let c1 = Context { used, files, bound: bound1, alias };
    let c2 = Context { used, files, bound: bound2, alias };
    lemma_bound_irrelevant(cut(root), Seq::empty(), c1, c2);
}

} // verus!
