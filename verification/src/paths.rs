//! Paths as the list of their components.
use vstd::prelude::*;

use crate::names::names_view;
use crate::text::{append_str, push_char};

verus! {

/// A path, as the list of the pieces it is built from: the components that
/// `std::path::Path::components` yields, each written as its text (`/` for the
/// root, `.` for the current directory, `..` for the parent, else a name).
pub struct ItemPath {
    pub components: Vec<String>,
}

impl View for ItemPath {
    type V = Seq<Seq<char>>;

    open spec fn view(&self) -> Seq<Seq<char>> {
        names_view(self.components@)
    }
}

/// The views of a list of paths.
pub open spec fn paths_view(paths: Seq<ItemPath>) -> Seq<Seq<Seq<char>>> {
    paths.map_values(|p: ItemPath| p@)
}

/// A component that is a name (not the root, `.` or `..`).
pub open spec fn is_normal(c: Seq<char>) -> bool {
    c != seq!['/'] && c != seq!['.'] && c != seq!['.', '.']
}

/// The file name of a path: its last component when that is a name, else empty.
pub open spec fn spec_basename(p: Seq<Seq<char>>) -> Seq<char> {
    if p.len() > 0 && is_normal(p.last()) {
        p.last()
    } else {
        Seq::empty()
    }
}

/// The text of `acc` after pushing the piece `c` (`PathBuf::push`): a piece
/// that starts with `/` replaces the path; otherwise a `/` separates the two
/// unless `acc` is empty or already ends with one.
pub open spec fn push_text(acc: Seq<char>, c: Seq<char>) -> Seq<char> {
    if c.len() > 0 && c[0] == '/' {
        c
    } else if acc.len() == 0 || acc.last() == '/' {
        acc + c
    } else {
        acc + seq!['/'] + c
    }
}

/// The text of a path built by pushing its pieces in order.
pub open spec fn path_text(p: Seq<Seq<char>>) -> Seq<char>
    decreases p.len(),
{
    if p.len() == 0 {
        Seq::empty()
    } else {
        push_text(path_text(p.drop_last()), p.last())
    }
}

/// Whether the components `t` begin the components `p`.
pub open spec fn has_prefix(p: Seq<Seq<char>>, t: Seq<Seq<char>>) -> bool {
    t.len() <= p.len() && p.take(t.len() as int) == t
}

/// `path` relative to `target` when `target` begins it, else `path` itself
/// (`Path::strip_prefix(..).unwrap_or(path)`).
pub open spec fn spec_relative(p: Seq<Seq<char>>, t: Seq<Seq<char>>) -> Seq<Seq<char>> {
    if has_prefix(p, t) {
        p.skip(t.len() as int)
    } else {
        p
    }
}

/// A piece that can follow the first one of a path: not empty, and without `/`.
pub open spec fn is_inner_piece(c: Seq<char>) -> bool {
    c.len() > 0 && forall|k: int| 0 <= k < c.len() ==> c[k] != '/'
}

proof fn lemma_inner_text(r: Seq<Seq<char>>)
    requires
        r.len() > 0,
        forall|i: int| 0 <= i < r.len() ==> is_inner_piece(#[trigger] r[i]),
    ensures
        path_text(r).len() > 0,
        path_text(r)[0] != '/',
        path_text(r).last() != '/',
    decreases r.len(),
{
    let c = r.last();
    assert(is_inner_piece(r[r.len() - 1]));
    assert(c[0] != '/' && c[c.len() - 1] != '/');
    if r.len() == 1 {
        assert(r.drop_last() =~= Seq::<Seq<char>>::empty());
        assert(path_text(r.drop_last()) == Seq::<char>::empty());
        assert(Seq::<char>::empty() + c =~= c);
        assert(path_text(r) == c);
    } else {
        let rest = r.drop_last();
        assert forall|i: int| 0 <= i < rest.len() implies is_inner_piece(#[trigger] rest[i]) by {
            assert(rest[i] == r[i]);
        }
        lemma_inner_text(rest);
        let x = path_text(rest);
        assert(path_text(r) == x + seq!['/'] + c);
        assert((x + seq!['/'] + c)[0] == x[0]);
    }
}

proof fn lemma_push_after(a: Seq<char>, x: Seq<char>, c: Seq<char>)
    requires
        x.len() > 0,
        x[0] != '/',
        x.last() != '/',
        is_inner_piece(c),
    ensures
        push_text(push_text(a, x), c) == push_text(a, x + seq!['/'] + c),
{
    assert(c[0] != '/');
    assert((x + seq!['/'] + c)[0] == x[0]);
    if a.len() == 0 || a.last() == '/' {
        assert((a + x).last() == x.last());
        assert(a + x + seq!['/'] + c =~= a + (x + seq!['/'] + c));
    } else {
        assert((a + seq!['/'] + x).last() == x.last());
        assert(a + seq!['/'] + x + seq!['/'] + c =~= a + seq!['/'] + (x + seq!['/'] + c));
    }
}

proof fn lemma_text_of_join(t: Seq<Seq<char>>, r: Seq<Seq<char>>)
    requires
        r.len() > 0,
        forall|i: int| 0 <= i < r.len() ==> is_inner_piece(#[trigger] r[i]),
    ensures
        path_text(t + r) == push_text(path_text(t), path_text(r)),
    decreases r.len(),
{
    let c = r.last();
    let rest = r.drop_last();
    assert(is_inner_piece(r[r.len() - 1]));
    assert((t + r).drop_last() =~= t + rest);
    assert((t + r).last() == c);
    if r.len() == 1 {
        assert(rest =~= Seq::<Seq<char>>::empty());
        assert(t + rest =~= t);
        assert(c[0] != '/');
        assert(path_text(r) == push_text(Seq::<char>::empty(), c));
        assert(Seq::<char>::empty() + c =~= c);
    } else {
        assert forall|i: int| 0 <= i < rest.len() implies is_inner_piece(#[trigger] rest[i]) by {
            assert(rest[i] == r[i]);
        }
        lemma_text_of_join(t, rest);
        lemma_inner_text(rest);
        let x = path_text(rest);
        assert(c[0] != '/');
        assert(path_text(r) == x + seq!['/'] + c);
        lemma_push_after(path_text(t), x, c);
    }
}

/// A path that `target` begins is `target` followed by the path relative to
/// it; and where the relative path is not empty and its pieces hold no `/`,
/// joining its text onto the text of `target` (`target.join(relative)`) gives
/// the text of the path back.
pub proof fn lemma_relative_round_trip(p: Seq<Seq<char>>, t: Seq<Seq<char>>)
    requires
        has_prefix(p, t),
        forall|i: int| t.len() <= i < p.len() ==> is_inner_piece(#[trigger] p[i]),
    ensures
        t + spec_relative(p, t) == p,
        spec_relative(p, t).len() > 0 ==> push_text(path_text(t), path_text(spec_relative(p, t)))
            == path_text(p),
{
    let r = p.skip(t.len() as int);
    assert(t + r =~= p);
    if r.len() > 0 {
        assert forall|i: int| 0 <= i < r.len() implies is_inner_piece(#[trigger] r[i]) by {
            assert(r[i] == p[t.len() + i]);
        }
        lemma_text_of_join(t, r);
    }
}

/// The directory part of a path (`Path::parent`, an empty path where there is none).
pub open spec fn spec_parent(p: Seq<Seq<char>>) -> Seq<Seq<char>> {
    if p.len() > 0 && p.last() != seq!['/'] {
        p.drop_last()
    } else {
        Seq::empty()
    }
}

/// Whether a name is hidden: it starts with a dot.
pub open spec fn spec_is_hidden(name: Seq<char>) -> bool {
    name.len() > 0 && name[0] == '.'
}

/// Every name whose first character is `.` is hidden, whatever follows it
/// (`.git`, `.env.local`, `.eslintrc.json`), and no other name is.
pub proof fn lemma_leading_dot_is_hidden(name: Seq<char>)
    ensures
        spec_is_hidden(name) <==> (name.len() > 0 && name[0] == '.'),
{
}

/// Whether `s` is `/`, `.` or `..`.
fn is_special(s: &String) -> (r: bool)
    ensures
        r == !is_normal(s@),
{
    let cs = crate::text::chars_of(s.as_str());
    let r = (cs.len() == 1 && (cs[0] == '/' || cs[0] == '.')) || (cs.len() == 2 && cs[0] == '.'
        && cs[1] == '.');
    proof {
        if cs@ == seq!['/'] || cs@ == seq!['.'] {
            assert(cs@.len() == 1 && cs@[0] == cs@[0]);
        }
        if cs@ == seq!['.', '.'] {
            assert(cs@.len() == 2);
        }
        if cs@.len() == 1 && cs@[0] == '/' {
            assert(cs@ =~= seq!['/']);
        }
        if cs@.len() == 1 && cs@[0] == '.' {
            assert(cs@ =~= seq!['.']);
        }
        if cs@.len() == 2 && cs@[0] == '.' && cs@[1] == '.' {
            assert(cs@ =~= seq!['.', '.']);
        }
        if r {
            assert(!is_normal(cs@));
        }
        if !is_normal(cs@) {
            if cs@ == seq!['/'] {
                assert(cs@[0] == '/');
            } else if cs@ == seq!['.'] {
                assert(cs@[0] == '.');
            } else {
                assert(cs@[0] == '.' && cs@[1] == '.');
            }
        }
    }
    r
}

/// Whether `name` is hidden (starts with a dot).
pub fn is_hidden(name: &str) -> (r: bool)
    ensures
        r == spec_is_hidden(name@),
        r <==> name@.len() > 0 && name@[0] == '.',
{
    let cs = crate::text::chars_of(name);
    cs.len() > 0 && cs[0] == '.'
}

impl ItemPath {
    /// A copy of this path.
    pub fn duplicate(&self) -> (r: ItemPath)
        ensures
            r@ == self@,
    {
        let mut components: Vec<String> = Vec::new();
        let mut i: usize = 0;
        while i < self.components.len()
            invariant
                i <= self.components@.len(),
                names_view(components@) == names_view(self.components@).take(i as int),
            decreases self.components@.len() - i,
        {
            let ghost before = components@;
            let c = self.components[i].clone();
            components.push(c);
            assert(names_view(components@) =~= names_view(before).push(c@));
            assert(names_view(components@) =~= names_view(self.components@).take(i + 1));
            i += 1;
        }
        assert(names_view(self.components@).take(i as int) =~= names_view(self.components@));
        ItemPath { components }
    }

    /// The file name of this path (empty when it has none).
    pub fn basename(&self) -> (r: &str)
        ensures
            r@ == spec_basename(self@),
    {
        let n = self.components.len();
        if n > 0 && !is_special(&self.components[n - 1]) {
            self.components[n - 1].as_str()
        } else {
            proof {
                reveal_strlit("");
            }
            assert(spec_basename(self@) =~= Seq::<char>::empty());
            ""
        }
    }

    /// The text of this path.
    pub fn text(&self) -> (r: String)
        ensures
            r@ == path_text(self@),
    {
        assert(names_view(self.components@).skip(0) =~= self@);
        text_of_range(&self.components, 0)
    }

    /// Whether `target` begins this path.
    pub fn starts_with(&self, target: &ItemPath) -> (r: bool)
        ensures
            r == has_prefix(self@, target@),
    {
        let n = target.components.len();
        if n > self.components.len() {
            return false;
        }
        let mut i: usize = 0;
        while i < n
            invariant
                n == target@.len(),
                n <= self@.len(),
                i <= n,
                forall|k: int| 0 <= k < i ==> self@[k] == target@[k],
            decreases n - i,
        {
            if self.components[i] != target.components[i] {
                assert(self@.take(n as int)[i as int] != target@[i as int]);
                return false;
            }
            i += 1;
        }
        assert(self@.take(n as int) =~= target@);
        true
    }

    /// The path with its last piece replaced by `name` (`parent().join(name)`).
    pub fn parent_joined(&self, name: &String) -> (r: ItemPath)
        ensures
            r@ == spec_parent(self@).push(name@),
    {
        let copy = self.duplicate();
        let mut components = copy.components;
        let n = components.len();
        if n > 0 && !is_root_piece(&components[n - 1]) {
            components.pop();
        } else {
            components = Vec::new();
        }
        components.push(name.clone());
        let r = ItemPath { components };
        proof {
            if n > 0 && self@.last() != seq!['/'] {
                assert(r@ =~= self@.drop_last().push(name@));
            } else {
                assert(r@ =~= Seq::<Seq<char>>::empty().push(name@));
            }
        }
        r
    }
}

/// Whether `s` is `/`.
fn is_root_piece(s: &String) -> (r: bool)
    ensures
        r == (s@ == seq!['/']),
{
    let cs = crate::text::chars_of(s.as_str());
    let r = cs.len() == 1 && cs[0] == '/';
    proof {
        if r {
            assert(cs@ =~= seq!['/']);
        }
        if cs@ == seq!['/'] {
            assert(cs@.len() == 1);
        }
    }
    r
}

/// The text of a path made of `pieces[from..]` (pushed in order).
fn text_of_range(pieces: &Vec<String>, from: usize) -> (r: String)
    requires
        from <= pieces@.len(),
    ensures
        r@ == path_text(names_view(pieces@).skip(from as int)),
{
    let ghost p = names_view(pieces@).skip(from as int);
    let mut r = String::new();
    let mut i: usize = from;
    assert(p.take(0) =~= Seq::<Seq<char>>::empty());
    while i < pieces.len()
        invariant
            from <= i <= pieces@.len(),
            p == names_view(pieces@).skip(from as int),
            r@ == path_text(p.take(i - from)),
        decreases pieces@.len() - i,
    {
        let piece = &pieces[i];
        let cs = crate::text::chars_of(piece.as_str());
        assert(p.take(i + 1 - from).drop_last() =~= p.take(i - from));
        assert(p.take(i + 1 - from).last() == piece@);
        if cs.len() > 0 && cs[0] == '/' {
            r = piece.clone();
        } else {
            let rs = crate::text::chars_of(r.as_str());
            if rs.len() > 0 && rs[rs.len() - 1] != '/' {
                push_char(&mut r, '/');
            }
            append_str(&mut r, piece.as_str());
        }
        assert(r@ =~= push_text(path_text(p.take(i - from)), piece@));
        i += 1;
    }
    assert(p.take(pieces@.len() - from) =~= p);
    r
}

/// The text of `path` relative to `target` (`Path::strip_prefix(target)`,
/// falling back to the whole path).
pub fn relative_text(path: &ItemPath, target: &ItemPath) -> (r: String)
    ensures
        r@ == path_text(spec_relative(path@, target@)),
{
    if path.starts_with(target) {
        text_of_range(&path.components, target.components.len())
    } else {
        assert(names_view(path.components@).skip(0) =~= path@);
        text_of_range(&path.components, 0)
    }
}

} // verus!
