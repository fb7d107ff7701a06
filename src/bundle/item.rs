//! The parsed form of a source file: items, their attributes and imports.
use vstd::prelude::*;

verus! {

/// An outer attribute of an item: `#[name(args)]`, with its full text.
#[derive(Debug)]
pub struct Attr {
    pub name: String,
    pub args: String,
    pub text: Vec<char>,
}

/// Where the path of a library import starts.
#[derive(Debug, PartialEq, Eq, Structural)]
pub enum UseRoot {
    /// `crate::...`: the root of the library being bundled.
    Crate,
    /// `super::` written `hops` times, or nothing when `hops` is zero.
    Relative { hops: usize },
}

/// An item of a source file.
#[derive(Debug)]
pub enum Item {
    /// `mod name;` (no content yet) or `mod name { ... }`.
    Mod { attrs: Vec<Attr>, vis: Vec<char>, name: String, content: Option<Vec<Item>> },
    /// `use root tail;`, where `tail` is the text of the path after its root.
    Use { attrs: Vec<Attr>, vis: Vec<char>, root: UseRoot, tail: Vec<char> },
    /// Any other item, kept as text.
    Other { attrs: Vec<Attr>, text: Vec<char> },
}

pub open spec fn cfg_name() -> Seq<char> {
    seq!['c', 'f', 'g']
}

pub open spec fn test_args() -> Seq<char> {
    seq!['t', 'e', 's', 't']
}

/// Attributes that bundling removes: documentation, lint, conditional and warning ones.
pub open spec fn is_dropped_name(n: Seq<char>) -> bool {
    n == seq!['d', 'o', 'c'] || n == seq!['a', 'l', 'l', 'o', 'w'] || n == cfg_name() || n
        == seq!['w', 'a', 'r', 'n']
}

/// An attribute as a value.
pub struct AttrView {
    pub name: Seq<char>,
    pub args: Seq<char>,
    pub text: Seq<char>,
}

pub open spec fn attr_view(a: Attr) -> AttrView {
    AttrView { name: a.name@, args: a.args@, text: a.text@ }
}

pub open spec fn attrs_view(s: Seq<Attr>) -> Seq<AttrView> {
    s.map_values(|a: Attr| attr_view(a))
}

/// `#[cfg(test)]`: what follows it in a file is test code.
pub open spec fn is_test_attr(a: AttrView) -> bool {
    a.name == cfg_name() && a.args == test_args()
}

/// An item as a value.
pub enum ItemView {
    Mod {
        attrs: Seq<AttrView>,
        vis: Seq<char>,
        name: Seq<char>,
        content: Option<Seq<ItemView>>,
    },
    /// `crate_rooted` for `crate::tail`; else `super::` written `hops` times, then `tail`.
    Use { attrs: Seq<AttrView>, vis: Seq<char>, crate_rooted: bool, hops: nat, tail: Seq<char> },
    Other { attrs: Seq<AttrView>, text: Seq<char> },
}

pub open spec fn item_view(item: Item) -> ItemView
    decreases item,
{
    match item {
        Item::Mod { attrs, vis, name, content } => ItemView::Mod {
            attrs: attrs_view(attrs@),
            vis: vis@,
            name: name@,
            content: match content {
                Some(v) => Some(
                    Seq::new(
                        v@.len(),
                        |i: int|
                            if 0 <= i < v@.len() {
                                item_view(v[i])
                            } else {
                                ItemView::Other { attrs: Seq::empty(), text: Seq::empty() }
                            },
                    ),
                ),
                None => None,
            },
        },
        Item::Use { attrs, vis, root, tail } => ItemView::Use {
            attrs: attrs_view(attrs@),
            vis: vis@,
            crate_rooted: root is Crate,
            hops: match root {
                UseRoot::Crate => 0,
                UseRoot::Relative { hops } => hops as nat,
            },
            tail: tail@,
        },
        Item::Other { attrs, text } => ItemView::Other { attrs: attrs_view(attrs@), text: text@ },
    }
}

pub open spec fn items_view(v: Seq<Item>) -> Seq<ItemView> {
    Seq::new(v.len(), |i: int| item_view(v[i]))
}

pub open spec fn attrs_of(item: ItemView) -> Seq<AttrView> {
    match item {
        ItemView::Mod { attrs, .. } => attrs,
        ItemView::Use { attrs, .. } => attrs,
        ItemView::Other { attrs, .. } => attrs,
    }
}

/// The item is marked as test-only.
pub open spec fn is_test_marker(item: ItemView) -> bool {
    exists|j: int| 0 <= j < attrs_of(item).len() && is_test_attr(#[trigger] attrs_of(item)[j])
}

/// The index of the first test-only item, or the length when there is none.
pub open spec fn marker_index(s: Seq<ItemView>) -> nat
    decreases s.len(),
{
    if s.len() == 0 {
        0
    } else if is_test_marker(s[0]) {
        0
    } else {
        1 + marker_index(s.drop_first())
    }
}

/// The items before the first test-only one.
pub open spec fn cut(s: Seq<ItemView>) -> Seq<ItemView> {
    s.subrange(0, marker_index(s) as int)
}

pub proof fn lemma_marker_index(s: Seq<ItemView>, k: int)
    requires
        0 <= k <= s.len(),
        forall|j: int| 0 <= j < k ==> !is_test_marker(#[trigger] s[j]),
        k < s.len() ==> is_test_marker(s[k]),
    ensures
        marker_index(s) == k,
        cut(s) == s.subrange(0, k),
    decreases k,
{
    if k > 0 {
        assert(!is_test_marker(s[0]));
        let t = s.drop_first();
        assert forall|j: int| 0 <= j < k - 1 implies !is_test_marker(#[trigger] t[j]) by {
            assert(t[j] == s[j + 1]);
        }
        if k < s.len() {
            assert(t[k - 1] == s[k]);
        }
        lemma_marker_index(t, k - 1);
    }
}

pub proof fn lemma_marker_index_bound(s: Seq<ItemView>)
    ensures
        marker_index(s) <= s.len(),
    decreases s.len(),
{
    if s.len() > 0 && !is_test_marker(s[0]) {
        lemma_marker_index_bound(s.drop_first());
    }
}

/// The attributes that bundling keeps, in their order.
pub open spec fn kept_attrs(s: Seq<AttrView>) -> Seq<AttrView>
    decreases s.len(),
{
    if s.len() == 0 {
        s
    } else {
        let rest = kept_attrs(s.drop_last());
        if is_dropped_name(s.last().name) {
            rest
        } else {
            rest.push(s.last())
        }
    }
}

pub proof fn lemma_attrs_view_push(s: Seq<Attr>, a: Attr)
    ensures
        attrs_view(s.push(a)) == attrs_view(s).push(attr_view(a)),
{
    assert(attrs_view(s.push(a)) =~= attrs_view(s).push(attr_view(a)));
}

/// Whether two strings hold the same characters as `lit`.
fn str_is(s: &String, lit: &str) -> (r: bool)
    ensures
        r == (s@ == lit@),
{
    let t = s.as_str();
    let n = t.unicode_len();
    if n != lit.unicode_len() {
        return false;
    }
    let mut i: usize = 0;
    while i < n
        invariant
            n == t@.len() == lit@.len(),
            t@ == s@,
            i <= n,
            forall|j: int| 0 <= j < i ==> t@[j] == lit@[j],
        decreases n - i,
    {
        if t.get_char(i) != lit.get_char(i) {
            return false;
        }
        i += 1;
    }
    proof {
        assert(t@ =~= lit@);
    }
    true
}

/// Whether bundling removes the attribute.
pub fn is_dropped(a: &Attr) -> (r: bool)
    ensures
        r == is_dropped_name(attr_view(*a).name),
{
    proof {
        reveal_strlit("doc");
        reveal_strlit("allow");
        reveal_strlit("cfg");
        reveal_strlit("warn");
        assert("doc"@ == seq!['d', 'o', 'c']);
        assert("allow"@ == seq!['a', 'l', 'l', 'o', 'w']);
        assert("cfg"@ == cfg_name());
        assert("warn"@ == seq!['w', 'a', 'r', 'n']);
    }
    str_is(&a.name, "doc") || str_is(&a.name, "allow") || str_is(&a.name, "cfg") || str_is(
        &a.name,
        "warn",
    )
}

/// Whether the attribute is `#[cfg(test)]`.
pub fn is_test(a: &Attr) -> (r: bool)
    ensures
        r == is_test_attr(attr_view(*a)),
{
    proof {
        reveal_strlit("cfg");
        reveal_strlit("test");
        assert("cfg"@ == cfg_name());
        assert("test"@ == test_args());
    }
    str_is(&a.name, "cfg") && str_is(&a.args, "test")
}

/// Copies an attribute.
pub fn clone_attr(a: &Attr) -> (r: Attr)
    ensures
        r.name@ == a.name@,
        r.args@ == a.args@,
        r.text@ == a.text@,
{
    Attr { name: a.name.clone(), args: a.args.clone(), text: clone_chars(&a.text) }
}

/// Copies a list of characters.
pub fn clone_chars(v: &Vec<char>) -> (r: Vec<char>)
    ensures
        r@ == v@,
{
    let mut r: Vec<char> = Vec::new();
    let mut i: usize = 0;
    while i < v.len()
        invariant
            i <= v.len(),
            r@ == v@.subrange(0, i as int),
        decreases v.len() - i,
    {
        r.push(v[i]);
        i += 1;
    }
    proof {
        assert(v@.subrange(0, v.len() as int) =~= v@);
    }
    r
}

/// The attributes that bundling keeps: all but documentation, lint, conditional and
/// warning ones, in their order.
pub fn filter_attrs(attrs: &Vec<Attr>) -> (r: Vec<Attr>)
    ensures
        attrs_view(r@) == kept_attrs(attrs_view(attrs@)),
{
    let mut r: Vec<Attr> = Vec::new();
    let mut i: usize = 0;
    while i < attrs.len()
        invariant
            i <= attrs.len(),
            attrs_view(r@) == kept_attrs(attrs_view(attrs@.subrange(0, i as int))),
        decreases attrs.len() - i,
    {
        let ghost s = attrs_view(attrs@.subrange(0, i + 1));
        proof {
            assert(attrs@.subrange(0, i + 1) == attrs@.subrange(0, i as int).push(attrs@[i as int]));
            lemma_attrs_view_push(attrs@.subrange(0, i as int), attrs@[i as int]);
            assert(s.drop_last() == attrs_view(attrs@.subrange(0, i as int)));
        }
        if !is_dropped(&attrs[i]) {
            let ghost before = r@;
            let a = clone_attr(&attrs[i]);
            r.push(a);
            proof {
                lemma_attrs_view_push(before, a);
            }
        }
        i += 1;
    }
    proof {
        assert(attrs@.subrange(0, attrs.len() as int) =~= attrs@);
    }
    r
}

/// The index of the first item marked as test-only, or the number of items.
pub fn test_cut(items: &Vec<Item>) -> (k: usize)
    ensures
        k <= items@.len(),
        cut(items_view(items@)) == items_view(items@).subrange(0, k as int),
{
    let ghost s = items_view(items@);
    let mut k: usize = 0;
    while k < items.len()
        invariant
            k <= items@.len(),
            s == items_view(items@),
            forall|j: int| 0 <= j < k ==> !is_test_marker(#[trigger] s[j]),
        decreases items.len() - k,
    {
        let attrs = match &items[k] {
            Item::Mod { attrs, .. } => attrs,
            Item::Use { attrs, .. } => attrs,
            Item::Other { attrs, .. } => attrs,
        };
        let mut j: usize = 0;
        while j < attrs.len()
            invariant
                j <= attrs@.len(),
                k < items@.len(),
                s == items_view(items@),
                forall|m: int| 0 <= m < k ==> !is_test_marker(#[trigger] s[m]),
                attrs_view(attrs@) == attrs_of(s[k as int]),
                forall|m: int| 0 <= m < j ==> !is_test_attr(#[trigger] attrs_view(attrs@)[m]),
            decreases attrs.len() - j,
        {
            if is_test(&attrs[j]) {
                proof {
                    assert(attrs_view(attrs@)[j as int] == attr_view(attrs@[j as int]));
                    lemma_marker_index(s, k as int);
                }
                return k;
            }
            proof {
                assert(attrs_view(attrs@)[j as int] == attr_view(attrs@[j as int]));
            }
            j += 1;
        }
        k += 1;
    }
    proof {
        lemma_marker_index(s, k as int);
    }
    k
}

/// `s` with each occurrence of `pat` replaced by `rep`, scanning from the left.
pub open spec fn replaced(s: Seq<char>, pat: Seq<char>, rep: Seq<char>) -> Seq<char>
    decreases s.len(),
{
    if s.len() == 0 || pat.len() == 0 {
        s
    } else if s.len() >= pat.len() && s.subrange(0, pat.len() as int) == pat {
        rep + replaced(s.subrange(pat.len() as int, s.len() as int), pat, rep)
    } else {
        seq![s[0]] + replaced(s.drop_first(), pat, rep)
    }
}

/// Whether `pat` occurs in `s` at position `i`.
fn occurs_at(s: &Vec<char>, pat: &Vec<char>, i: usize) -> (r: bool)
    requires
        i <= s@.len(),
    ensures
        r == (s@.len() - i >= pat@.len() && s@.subrange(i as int, i + pat@.len()) == pat@),
{
    let n = s.len();
    if n - i < pat.len() {
        return false;
    }
    let mut k: usize = 0;
    while k < pat.len()
        invariant
            k <= pat@.len(),
            n == s@.len(),
            i <= s@.len(),
            s@.len() - i >= pat@.len(),
            forall|j: int| 0 <= j < k ==> s@[i + j] == pat@[j],
        decreases pat.len() - k,
    {
        if s[i + k] != pat[k] {
            proof {
                assert(s@.subrange(i as int, i + pat@.len())[k as int] != pat@[k as int]);
            }
            return false;
        }
        k += 1;
    }
    proof {
        assert(s@.subrange(i as int, i + pat@.len()) =~= pat@);
    }
    true
}

/// `s` with each occurrence of `pat` replaced by `rep`.
pub fn replace_all(s: &Vec<char>, pat: &Vec<char>, rep: &Vec<char>) -> (r: Vec<char>)
    ensures
        r@ == replaced(s@, pat@, rep@),
{
    let mut out: Vec<char> = Vec::new();
    let mut i: usize = 0;
    proof {
        assert(s@.subrange(0, s@.len() as int) == s@);
    }
    while i < s.len()
        invariant
            i <= s@.len(),
            out@ + replaced(s@.subrange(i as int, s@.len() as int), pat@, rep@) == replaced(s@, pat@, rep@),
        decreases s.len() - i,
    {
        let ghost t = s@.subrange(i as int, s@.len() as int);
        if pat.len() > 0 && occurs_at(s, pat, i) {
            let mut k: usize = 0;
            let ghost before = out@;
            while k < rep.len()
                invariant
                    k <= rep@.len(),
                    out@ == before + rep@.subrange(0, k as int),
                decreases rep.len() - k,
            {
                out.push(rep[k]);
                proof {
                    assert(rep@.subrange(0, k + 1) == rep@.subrange(0, k as int).push(rep@[k as int]));
                }
                k += 1;
            }
            proof {
                assert(rep@.subrange(0, rep@.len() as int) == rep@);
                assert(t.subrange(0, pat@.len() as int) == s@.subrange(i as int, i + pat@.len()));
                assert(t.subrange(pat@.len() as int, t.len() as int) == s@.subrange(i + pat@.len(), s@.len() as int));
                assert(out@ + replaced(s@.subrange(i + pat@.len(), s@.len() as int), pat@, rep@) =~= before + replaced(t, pat@, rep@));
            }
            i = i + pat.len();
        } else {
            let ghost before = out@;
            out.push(s[i]);
            proof {
                if pat@.len() > 0 && t.len() >= pat@.len() {
                    assert(t.subrange(0, pat@.len() as int) == s@.subrange(i as int, i + pat@.len()));
                }
                assert(t.drop_first() == s@.subrange(i + 1, s@.len() as int));
                if pat@.len() == 0 {
                    assert(replaced(t, pat@, rep@) == t);
                    assert(replaced(t.drop_first(), pat@, rep@) == t.drop_first());
                    assert(t =~= seq![t[0]] + t.drop_first());
                }
                assert(out@ + replaced(s@.subrange(i + 1, s@.len() as int), pat@, rep@) =~= before + replaced(t, pat@, rep@));
            }
            i = i + 1;
        }
    }
    proof {
        assert(s@.subrange(s@.len() as int, s@.len() as int) =~= Seq::<char>::empty());
        assert(out@ + Seq::<char>::empty() =~= out@);
    }
    out
}

} // verus!
