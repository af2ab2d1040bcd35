//! The order in which paths are listed: `std::path::Path`'s order, which
//! compares component by component.
use vstd::prelude::*;
use vstd::relations::{sorted_by, total_ordering};

use crate::paths::{paths_view, ItemPath};
use crate::text::chars_of;

verus! {

/// Lexicographic order over sequences, from an order `le` on their elements.
pub open spec fn lex_le<T>(a: Seq<T>, b: Seq<T>, le: spec_fn(T, T) -> bool) -> bool
    decreases a.len(),
{
    if a.len() == 0 {
        true
    } else if b.len() == 0 {
        false
    } else if a[0] != b[0] {
        le(a[0], b[0])
    } else {
        lex_le(a.drop_first(), b.drop_first(), le)
    }
}

proof fn lemma_lex_reflexive<T>(a: Seq<T>, le: spec_fn(T, T) -> bool)
    ensures
        lex_le(a, a, le),
    decreases a.len(),
{
    if a.len() > 0 {
        lemma_lex_reflexive(a.drop_first(), le);
    }
}

proof fn lemma_lex_antisymmetric<T>(a: Seq<T>, b: Seq<T>, le: spec_fn(T, T) -> bool)
    requires
        total_ordering(le),
        lex_le(a, b, le),
        lex_le(b, a, le),
    ensures
        a == b,
    decreases a.len(),
{
    if a.len() > 0 {
        assert(b.len() > 0);
        if a[0] != b[0] {
            assert(le(a[0], b[0]) && le(b[0], a[0]));
        }
        lemma_lex_antisymmetric(a.drop_first(), b.drop_first(), le);
        assert(a =~= seq![a[0]] + a.drop_first());
        assert(b =~= seq![b[0]] + b.drop_first());
    } else {
        assert(b.len() == 0);
        assert(a =~= b);
    }
}

proof fn lemma_lex_transitive<T>(a: Seq<T>, b: Seq<T>, c: Seq<T>, le: spec_fn(T, T) -> bool)
    requires
        total_ordering(le),
        lex_le(a, b, le),
        lex_le(b, c, le),
    ensures
        lex_le(a, c, le),
    decreases a.len(),
{
    if a.len() > 0 {
        assert(b.len() > 0 && c.len() > 0);
        if a[0] == b[0] && b[0] == c[0] {
            lemma_lex_transitive(a.drop_first(), b.drop_first(), c.drop_first(), le);
        } else if a[0] == c[0] {
            assert(le(a[0], b[0]) && le(b[0], c[0]));
        }
    }
}

proof fn lemma_lex_total<T>(a: Seq<T>, b: Seq<T>, le: spec_fn(T, T) -> bool)
    requires
        total_ordering(le),
    ensures
        lex_le(a, b, le) || lex_le(b, a, le),
    decreases a.len(),
{
    if a.len() > 0 && b.len() > 0 {
        if a[0] == b[0] {
            lemma_lex_total(a.drop_first(), b.drop_first(), le);
        } else {
            assert(le(a[0], b[0]) || le(b[0], a[0]));
        }
    }
}

/// A total order on elements gives a total order on sequences.
pub proof fn lemma_lex_total_ordering<T>(le: spec_fn(T, T) -> bool)
    requires
        total_ordering(le),
    ensures
        total_ordering(|a: Seq<T>, b: Seq<T>| lex_le(a, b, le)),
{
    let l = |a: Seq<T>, b: Seq<T>| lex_le(a, b, le);
    assert forall|a: Seq<T>| #[trigger] l(a, a) by {
        lemma_lex_reflexive(a, le);
    }
    assert forall|a: Seq<T>, b: Seq<T>| #[trigger] l(a, b) && #[trigger] l(b, a) implies a == b by {
        lemma_lex_antisymmetric(a, b, le);
    }
    assert forall|a: Seq<T>, b: Seq<T>, c: Seq<T>| #[trigger] l(a, b) && #[trigger] l(b, c) implies l(a, c) by {
        lemma_lex_transitive(a, b, c, le);
    }
    assert forall|a: Seq<T>, b: Seq<T>| #[trigger] l(a, b) || #[trigger] l(b, a) by {
        lemma_lex_total(a, b, le);
    }
}

/// Characters in the order of their code points (the order of their UTF-8 bytes).
pub open spec fn char_le(a: char, b: char) -> bool {
    a as u32 <= b as u32
}

/// The order of a component's kind: root, `.`, `..`, then names.
pub open spec fn component_rank(c: Seq<char>) -> int {
    if c == seq!['/'] {
        1
    } else if c == seq!['.'] {
        2
    } else if c == seq!['.', '.'] {
        3
    } else {
        4
    }
}

/// Components in `std::path::Component`'s order: by kind, names by their text.
pub open spec fn component_le(a: Seq<char>, b: Seq<char>) -> bool {
    component_rank(a) < component_rank(b) || (component_rank(a) == component_rank(b) && (
    component_rank(a) < 4 || lex_le(a, b, |x: char, y: char| char_le(x, y))))
}

/// Paths in `std::path::Path`'s order: component by component.
pub open spec fn path_le(a: Seq<Seq<char>>, b: Seq<Seq<char>>) -> bool {
    lex_le(a, b, |x: Seq<char>, y: Seq<char>| component_le(x, y))
}

/// Deeper paths first (more components), then in path order.
pub open spec fn deeper_first_le(a: Seq<Seq<char>>, b: Seq<Seq<char>>) -> bool {
    a.len() > b.len() || (a.len() == b.len() && path_le(a, b))
}

proof fn lemma_char_total()
    ensures
        total_ordering(|x: char, y: char| char_le(x, y)),
{
    assert forall|x: char, y: char| #[trigger] char_le(x, y) && #[trigger] char_le(y, x) implies x == y by {
        vstd::utf8::char_u32_cast(x, x as u32);
        vstd::utf8::char_u32_cast(y, y as u32);
    }
}

proof fn lemma_component_total()
    ensures
        total_ordering(|x: Seq<char>, y: Seq<char>| component_le(x, y)),
{
    let cl = |x: char, y: char| char_le(x, y);
    lemma_char_total();
    lemma_lex_total_ordering(cl);
    let tl = |a: Seq<char>, b: Seq<char>| lex_le(a, b, cl);
    assert forall|a: Seq<char>, b: Seq<char>| #[trigger] component_le(a, b) && #[trigger] component_le(b, a) implies a == b by {
        if component_rank(a) == 4 {
            assert(tl(a, b) && tl(b, a));
        }
    }
    assert forall|a: Seq<char>, b: Seq<char>, c: Seq<char>| #[trigger] component_le(a, b) && #[trigger] component_le(b, c) implies component_le(a, c) by {
        if component_rank(a) == 4 && component_rank(b) == 4 && component_rank(c) == 4 {
            assert(tl(a, b) && tl(b, c));
        }
    }
    assert forall|a: Seq<char>, b: Seq<char>| #[trigger] component_le(a, b) || #[trigger] component_le(b, a) by {
        if component_rank(a) == 4 && component_rank(b) == 4 {
            assert(tl(a, b) || tl(b, a));
        }
    }
    assert forall|a: Seq<char>| #[trigger] component_le(a, a) by {
        if component_rank(a) == 4 {
            assert(tl(a, a));
        }
    }
}

/// Path order is a total order.
pub proof fn lemma_path_order_total()
    ensures
        total_ordering(|a: Seq<Seq<char>>, b: Seq<Seq<char>>| path_le(a, b)),
{
    lemma_component_total();
    lemma_lex_total_ordering(|x: Seq<char>, y: Seq<char>| component_le(x, y));
    let pl = |a: Seq<Seq<char>>, b: Seq<Seq<char>>| lex_le(a, b, |x: Seq<char>, y: Seq<char>| component_le(x, y));
    assert(forall|a: Seq<Seq<char>>, b: Seq<Seq<char>>| #[trigger] path_le(a, b) == pl(a, b));
}

/// Deeper-first order is a total order.
pub proof fn lemma_deeper_first_order_total()
    ensures
        total_ordering(|a: Seq<Seq<char>>, b: Seq<Seq<char>>| deeper_first_le(a, b)),
{
    lemma_path_order_total();
    let pl = |a: Seq<Seq<char>>, b: Seq<Seq<char>>| path_le(a, b);
    assert forall|a: Seq<Seq<char>>, b: Seq<Seq<char>>| #[trigger] deeper_first_le(a, b) && #[trigger] deeper_first_le(b, a) implies a == b by {
        assert(pl(a, b) && pl(b, a));
    }
    assert forall|a: Seq<Seq<char>>, b: Seq<Seq<char>>, c: Seq<Seq<char>>| #[trigger] deeper_first_le(a, b) && #[trigger] deeper_first_le(b, c) implies deeper_first_le(a, c) by {
        if a.len() == b.len() && b.len() == c.len() {
            assert(pl(a, b) && pl(b, c));
        }
    }
    assert forall|a: Seq<Seq<char>>, b: Seq<Seq<char>>| #[trigger] deeper_first_le(a, b) || #[trigger] deeper_first_le(b, a) by {
        assert(pl(a, b) || pl(b, a));
    }
    assert forall|a: Seq<Seq<char>>| #[trigger] deeper_first_le(a, a) by {
        assert(pl(a, a));
    }
}


/// The order a listing is sorted in: path order, or deeper paths first.
pub open spec fn listing_order(deeper_first: bool) -> spec_fn(Seq<Seq<char>>, Seq<Seq<char>>) -> bool {
    if deeper_first {
        |a: Seq<Seq<char>>, b: Seq<Seq<char>>| deeper_first_le(a, b)
    } else {
        |a: Seq<Seq<char>>, b: Seq<Seq<char>>| path_le(a, b)
    }
}

/// Whether `a` comes no later than `b` in the order of their characters.
fn text_le(a: &String, b: &String) -> (r: bool)
    ensures
        r == lex_le(a@, b@, |x: char, y: char| char_le(x, y)),
{
    let ca = chars_of(a.as_str());
    let cb = chars_of(b.as_str());
    let ghost cl = |x: char, y: char| char_le(x, y);
    let mut i: usize = 0;
    assert(ca@.skip(0) =~= ca@ && cb@.skip(0) =~= cb@);
    while i < ca.len() && i < cb.len() && ca[i] == cb[i]
        invariant
            i <= ca@.len(),
            i <= cb@.len(),
            lex_le(a@, b@, cl) == lex_le(ca@.skip(i as int), cb@.skip(i as int), cl),
            ca@ == a@,
            cb@ == b@,
        decreases ca@.len() - i,
    {
        assert(ca@.skip(i as int).drop_first() =~= ca@.skip(i + 1));
        assert(cb@.skip(i as int).drop_first() =~= cb@.skip(i + 1));
        i += 1;
    }
    if i == ca.len() {
        true
    } else if i == cb.len() {
        false
    } else {
        (ca[i] as u32) <= (cb[i] as u32)
    }
}

/// The rank of a component's kind.
fn component_rank_exec(c: &String) -> (r: u8)
    ensures
        r == component_rank(c@),
{
    let cs = chars_of(c.as_str());
    let r: u8 = if cs.len() == 1 && cs[0] == '/' {
        1
    } else if cs.len() == 1 && cs[0] == '.' {
        2
    } else if cs.len() == 2 && cs[0] == '.' && cs[1] == '.' {
        3
    } else {
        4
    };
    proof {
        if cs@.len() == 1 {
            if cs@[0] == '/' {
                assert(cs@ =~= seq!['/']);
            } else if cs@[0] == '.' {
                assert(cs@ =~= seq!['.']);
            }
        }
        if cs@.len() == 2 && cs@[0] == '.' && cs@[1] == '.' {
            assert(cs@ =~= seq!['.', '.']);
        }
        if cs@ == seq!['/'] || cs@ == seq!['.'] {
            assert(cs@.len() == 1);
        }
        if cs@ == seq!['.', '.'] {
            assert(cs@.len() == 2);
        }
    }
    r
}

/// `component_le` on two components.
fn component_le_exec(a: &String, b: &String) -> (r: bool)
    ensures
        r == component_le(a@, b@),
{
    let ra = component_rank_exec(a);
    let rb = component_rank_exec(b);
    ra < rb || (ra == rb && (ra < 4 || text_le(a, b)))
}

/// `path_le` on two paths.
pub fn path_le_exec(a: &ItemPath, b: &ItemPath) -> (r: bool)
    ensures
        r == path_le(a@, b@),
{
    let ghost ol = |x: Seq<char>, y: Seq<char>| component_le(x, y);
    let mut i: usize = 0;
    assert(a@.skip(0) =~= a@ && b@.skip(0) =~= b@);
    while i < a.components.len() && i < b.components.len() && a.components[i] == b.components[i]
        invariant
            i <= a@.len(),
            i <= b@.len(),
            path_le(a@, b@) == lex_le(a@.skip(i as int), b@.skip(i as int), ol),
        decreases a@.len() - i,
    {
        assert(a@.skip(i as int).drop_first() =~= a@.skip(i + 1));
        assert(b@.skip(i as int).drop_first() =~= b@.skip(i + 1));
        i += 1;
    }
    if i == a.components.len() {
        true
    } else if i == b.components.len() {
        false
    } else {
        assert(a@.skip(i as int)[0] == a@[i as int]);
        assert(b@.skip(i as int)[0] == b@[i as int]);
        component_le_exec(&a.components[i], &b.components[i])
    }
}

/// The listing order on two paths.
pub fn listing_le(a: &ItemPath, b: &ItemPath, deeper_first: bool) -> (r: bool)
    ensures
        r == (listing_order(deeper_first))(a@, b@),
{
    if deeper_first {
        a.components.len() > b.components.len() || (a.components.len() == b.components.len()
            && path_le_exec(a, b))
    } else {
        path_le_exec(a, b)
    }
}

proof fn lemma_listing_total(deeper_first: bool)
    ensures
        total_ordering(listing_order(deeper_first)),
{
    lemma_path_order_total();
    lemma_deeper_first_order_total();
}

/// Merges two sorted lists of paths into one.
fn merge(a: &Vec<ItemPath>, b: &Vec<ItemPath>, deeper_first: bool) -> (r: Vec<ItemPath>)
    requires
        sorted_by(paths_view(a@), listing_order(deeper_first)),
        sorted_by(paths_view(b@), listing_order(deeper_first)),
    ensures
        sorted_by(paths_view(r@), listing_order(deeper_first)),
        paths_view(r@).to_multiset() == paths_view(a@).to_multiset().add(paths_view(b@).to_multiset()),
{
    let ghost le = listing_order(deeper_first);
    let ghost va = paths_view(a@);
    let ghost vb = paths_view(b@);
    proof {
        lemma_listing_total(deeper_first);
        broadcast use vstd::seq_lib::group_to_multiset_ensures;
        broadcast use vstd::multiset::group_multiset_axioms;
        assert(va.take(0) =~= Seq::<Seq<Seq<char>>>::empty());
        assert(vb.take(0) =~= Seq::<Seq<Seq<char>>>::empty());
        assert(paths_view(Seq::<ItemPath>::empty()).to_multiset() =~= va.take(0).to_multiset().add(vb.take(0).to_multiset()));
    }
    let mut r: Vec<ItemPath> = Vec::new();
    let mut i: usize = 0;
    let mut j: usize = 0;
    while i < a.len() || j < b.len()
        invariant
            le == listing_order(deeper_first),
            total_ordering(le),
            va == paths_view(a@),
            vb == paths_view(b@),
            sorted_by(va, le),
            sorted_by(vb, le),
            i <= a@.len(),
            j <= b@.len(),
            sorted_by(paths_view(r@), le),
            paths_view(r@).to_multiset() == va.take(i as int).to_multiset().add(vb.take(j as int).to_multiset()),
            r@.len() > 0 && i < a@.len() ==> le(paths_view(r@).last(), va[i as int]),
            r@.len() > 0 && j < b@.len() ==> le(paths_view(r@).last(), vb[j as int]),
        decreases a@.len() + b@.len() - i - j,
    {
        let ghost before = paths_view(r@);
        let take_a = if i < a.len() && j < b.len() {
            listing_le(&a[i], &b[j], deeper_first)
        } else {
            i < a.len()
        };
        let ghost x: Seq<Seq<char>>;
        if take_a {
            proof { x = va[i as int]; }
            r.push(a[i].duplicate());
            proof {
                broadcast use vstd::seq_lib::group_to_multiset_ensures;
                broadcast use vstd::multiset::group_multiset_axioms;
                assert(va.take(i + 1) =~= va.take(i as int).push(x));
                assert(paths_view(r@) =~= before.push(x));
                assert(paths_view(r@).to_multiset() =~= va.take(i + 1).to_multiset().add(vb.take(j as int).to_multiset()));
                if i + 1 < a@.len() {
                    assert(le(va[i as int], va[i + 1]));
                }
            }
            i += 1;
        } else {
            proof { x = vb[j as int]; }
            r.push(b[j].duplicate());
            proof {
                broadcast use vstd::seq_lib::group_to_multiset_ensures;
                broadcast use vstd::multiset::group_multiset_axioms;
                assert(vb.take(j + 1) =~= vb.take(j as int).push(x));
                assert(paths_view(r@) =~= before.push(x));
                assert(paths_view(r@).to_multiset() =~= va.take(i as int).to_multiset().add(vb.take(j + 1).to_multiset()));
                if j + 1 < b@.len() {
                    assert(le(vb[j as int], vb[j + 1]));
                }
            }
            j += 1;
        }
        proof {
            assert forall|p: int, q: int| 0 <= p < q < paths_view(r@).len() implies #[trigger] le(paths_view(r@)[p], paths_view(r@)[q]) by {
                if q == paths_view(r@).len() - 1 && p < q {
                    assert(paths_view(r@)[p] == before[p]);
                    if before.len() > 0 && p < before.len() - 1 {
                        assert(le(before[p], before.last()));
                    }
                } else {
                    assert(paths_view(r@)[p] == before[p]);
                    assert(paths_view(r@)[q] == before[q]);
                }
            }
        }
    }
    proof {
        assert(va.take(i as int) =~= va);
        assert(vb.take(j as int) =~= vb);
    }
    r
}


/// The paths `v[lo..hi]`, sorted.
fn sort_range(v: &Vec<ItemPath>, lo: usize, hi: usize, deeper_first: bool) -> (r: Vec<ItemPath>)
    requires
        lo <= hi <= v@.len(),
    ensures
        sorted_by(paths_view(r@), listing_order(deeper_first)),
        paths_view(r@).to_multiset() == paths_view(v@).subrange(lo as int, hi as int).to_multiset(),
    decreases hi - lo,
{
    let ghost vv = paths_view(v@);
    if hi - lo <= 1 {
        let mut r: Vec<ItemPath> = Vec::new();
        if hi - lo == 1 {
            r.push(v[lo].duplicate());
        }
        proof {
            assert(paths_view(r@) =~= vv.subrange(lo as int, hi as int));
        }
        return r;
    }
    let mid = lo + (hi - lo) / 2;
    let left = sort_range(v, lo, mid, deeper_first);
    let right = sort_range(v, mid, hi, deeper_first);
    let r = merge(&left, &right, deeper_first);
    proof {
        assert(vv.subrange(lo as int, hi as int) =~= vv.subrange(lo as int, mid as int) + vv.subrange(mid as int, hi as int));
        vstd::seq_lib::lemma_multiset_commutative(vv.subrange(lo as int, mid as int), vv.subrange(mid as int, hi as int));
    }
    r
}

/// The paths `v`, sorted in the listing order (by path, or deeper paths first).
pub fn sort_paths(v: &Vec<ItemPath>, deeper_first: bool) -> (r: Vec<ItemPath>)
    ensures
        sorted_by(paths_view(r@), listing_order(deeper_first)),
        paths_view(r@).to_multiset() == paths_view(v@).to_multiset(),
{
    let r = sort_range(v, 0, v.len(), deeper_first);
    assert(paths_view(v@).subrange(0, v@.len() as int) =~= paths_view(v@));
    r
}

} // verus!
