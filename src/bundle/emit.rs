//! Writing the bundled file: the entry unit, then the expanded library in a wrapper module.
use vstd::prelude::*;
use crate::bundle::item::{
    attrs_view, item_view, items_view, lemma_marker_index_bound, AttrView, Item, ItemView, UseRoot,
};

verus! {

/// Appends the characters of `s`.
pub fn push_str(out: &mut Vec<char>, s: &str)
    ensures
        final(out)@ == old(out)@ + s@,
{
    let n = s.unicode_len();
    let mut i: usize = 0;
    let ghost start = out@;
    while i < n
        invariant
            n == s@.len(),
            i <= n,
            out@ == start + s@.subrange(0, i as int),
        decreases n - i,
    {
        out.push(s.get_char(i));
        proof {
            assert(s@.subrange(0, i + 1) == s@.subrange(0, i as int).push(s@[i as int]));
        }
        i += 1;
    }
    proof {
        assert(s@.subrange(0, n as int) == s@);
    }
}

/// Appends the characters of `s`.
pub fn push_chars(out: &mut Vec<char>, s: &Vec<char>)
    ensures
        final(out)@ == old(out)@ + s@,
{
    let mut i: usize = 0;
    let ghost start = out@;
    while i < s.len()
        invariant
            i <= s@.len(),
            out@ == start + s@.subrange(0, i as int),
        decreases s.len() - i,
    {
        out.push(s[i]);
        proof {
            assert(s@.subrange(0, i + 1) == s@.subrange(0, i as int).push(s@[i as int]));
        }
        i += 1;
    }
    proof {
        assert(s@.subrange(0, s.len() as int) == s@);
    }
}

/// Each attribute on a line of its own.
pub open spec fn render_attrs(s: Seq<AttrView>) -> Seq<char>
    decreases s.len(),
{
    if s.len() == 0 {
        Seq::empty()
    } else {
        render_attrs(s.drop_last()) + s.last().text + "\n"@
    }
}

/// `super::` written `n` times.
pub open spec fn supers(n: nat) -> Seq<char>
    decreases n,
{
    if n == 0 {
        Seq::empty()
    } else {
        supers((n - 1) as nat) + "super::"@
    }
}

/// The text of a sequence of items, one after the other.
pub open spec fn render_seq(s: Seq<ItemView>) -> Seq<char>
    decreases s,
    via render_seq_decreases
{
    if s.len() == 0 {
        Seq::empty()
    } else {
        render_seq(s.drop_last()) + match s.last() {
            ItemView::Mod { attrs, vis, name, content } => render_attrs(attrs) + vis + "mod "@
                + name + match content {
                Some(c) => " {\n"@ + render_seq(c) + "}\n"@,
                None => ";\n"@,
            },
            ItemView::Use { attrs, vis, crate_rooted, hops, tail } => render_attrs(attrs) + vis
                + "use "@ + (if crate_rooted {
                "crate::"@
            } else {
                supers(hops)
            }) + tail + ";\n"@,
            ItemView::Other { attrs, text } => render_attrs(attrs) + text + "\n"@,
        }
    }
}

#[via_fn]
proof fn render_seq_decreases(s: Seq<ItemView>) {
    if s.len() > 0 {
        assert(decreases_to!(s => s.drop_last()));
        let item = s.last();
        assert(decreases_to!(s => item));
    }
}

fn render_attrs_into(attrs: &Vec<crate::bundle::item::Attr>, out: &mut Vec<char>)
    ensures
        final(out)@ == old(out)@ + render_attrs(attrs_view(attrs@)),
{
    let ghost start = out@;
    let mut i: usize = 0;
    proof {
        assert(attrs_view(attrs@.subrange(0, 0)) =~= Seq::<AttrView>::empty());
        assert(start + Seq::<char>::empty() == start);
    }
    while i < attrs.len()
        invariant
            i <= attrs@.len(),
            out@ == start + render_attrs(attrs_view(attrs@.subrange(0, i as int))),
        decreases attrs.len() - i,
    {
        push_chars(out, &attrs[i].text);
        push_str(out, "\n");
        proof {
            let s = attrs_view(attrs@.subrange(0, i + 1));
            assert(s.drop_last() =~= attrs_view(attrs@.subrange(0, i as int)));
            assert(s.last() == attrs_view(attrs@)[i as int]);
        }
        i += 1;
    }
    proof {
        assert(attrs@.subrange(0, attrs.len() as int) == attrs@);
    }
}

proof fn lemma_content_view(v: Vec<Item>)
    ensures
        Seq::new(
            v@.len(),
            |i: int|
                if 0 <= i < v@.len() {
                    item_view(v[i])
                } else {
                    ItemView::Other { attrs: Seq::empty(), text: Seq::empty() }
                },
        ) == items_view(v@),
{
    assert(Seq::new(
        v@.len(),
        |i: int|
            if 0 <= i < v@.len() {
                item_view(v[i])
            } else {
                ItemView::Other { attrs: Seq::empty(), text: Seq::empty() }
            },
    ) =~= items_view(v@));
}

/// Appends the text of `items`.
#[verifier::rlimit(40)]
pub fn render_items(items: &Vec<Item>, out: &mut Vec<char>)
    ensures
        final(out)@ == old(out)@ + render_seq(items_view(items@)),
    decreases items,
{
    let ghost start = out@;
    let ghost s = items_view(items@);
    let mut i: usize = 0;
    proof {
        assert(s.subrange(0, 0) =~= Seq::<ItemView>::empty());
        assert(start + Seq::<char>::empty() == start);
    }
    while i < items.len()
        invariant
            i <= items@.len(),
            s == items_view(items@),
            out@ == start + render_seq(s.subrange(0, i as int)),
        decreases items.len() - i,
    {
        let ghost mid = out@;
        let ghost mut piece: Seq<char> = Seq::empty();
        let ghost t = s.subrange(0, i + 1);
        proof {
            assert(t.drop_last() == s.subrange(0, i as int));
            assert(t.last() == item_view(items@[i as int]));
        }
        match &items[i] {
            Item::Mod { attrs, vis, name, content } => {
                render_attrs_into(attrs, out);
                push_chars(out, vis);
                push_str(out, "mod ");
                push_str(out, name.as_str());
                match content {
                    Some(c) => {
                        push_str(out, " {\n");
                        proof {
                            assert(decreases_to!(*items => items@[i as int]));
                            lemma_content_view(*c);
                        }
                        render_items(c, out);
                        push_str(out, "}\n");
                        proof {
                            piece = render_attrs(attrs_view(attrs@)) + vis@ + "mod "@
                                + name@ + (" {\n"@ + render_seq(items_view(c@)) + "}\n"@);
                            assert(out@ =~= mid + piece);
                            let iv = item_view(items@[i as int]);
                            assert(iv->Mod_content == Some(items_view(c@)));
                            assert(render_seq(t) == render_seq(s.subrange(0, i as int)) + piece);
                        }
                    },
                    None => {
                        push_str(out, ";\n");
                        proof {
                            piece = render_attrs(attrs_view(attrs@)) + vis@ + "mod "@
                                + name@ + ";\n"@;
                            assert(out@ =~= mid + piece);
                    assert(render_seq(t) == render_seq(s.subrange(0, i as int)) + piece);
                        }
                    },
                }
            },
            Item::Use { attrs, vis, root, tail } => {
                render_attrs_into(attrs, out);
                push_chars(out, vis);
                push_str(out, "use ");
                match root {
                    UseRoot::Crate => {
                        push_str(out, "crate::");
                    },
                    UseRoot::Relative { hops } => {
                        let mut h: usize = 0;
                        let ghost before = out@;
                        proof {
                            assert(before + supers(0) =~= before);
                        }
                        while h < *hops
                            invariant
                                h <= *hops,
                                out@ == before + supers(h as nat),
                            decreases *hops - h,
                        {
                            push_str(out, "super::");
                            h += 1;
                        }
                    },
                }
                let ghost r = if root is Crate { "crate::"@ } else { supers(root->Relative_hops as nat) };
                push_chars(out, tail);
                push_str(out, ";\n");
                proof {
                    piece = render_attrs(attrs_view(attrs@)) + vis@ + "use "@ + r
                        + tail@ + ";\n"@;
                    assert(out@ =~= mid + piece);
                    assert(render_seq(t) == render_seq(s.subrange(0, i as int)) + piece);
                }
            },
            Item::Other { attrs, text } => {
                render_attrs_into(attrs, out);
                push_chars(out, text);
                push_str(out, "\n");
                proof {
                    piece = render_attrs(attrs_view(attrs@)) + text@ + "\n"@;
                    assert(out@ =~= mid + piece);
                    assert(render_seq(t) == render_seq(s.subrange(0, i as int)) + piece);
                }
            },
        }
        proof {
            assert(out@ =~= start + render_seq(t));
        }
        i += 1;
    }
    proof {
        assert(s.subrange(0, items.len() as int) == s);
    }
}

} // verus!
