//! The final component of a `/`-separated path and its extension, following
//! the rules of `std::path::Path::file_name`, `file_stem` and `extension`.
use vstd::prelude::*;

verus! {

/// The text after the last `/` of `s` (all of `s` when it holds none).
pub open spec fn last_segment(s: Seq<char>) -> Seq<char>
    decreases s.len(),
{
    if s.len() == 0 || s.last() == '/' {
        Seq::empty()
    } else {
        last_segment(s.drop_last()).push(s.last())
    }
}

/// The final component of the path written `s`: trailing `/` and `.`
/// components are passed over; there is none when nothing is left or when
/// the last component is `..`.
pub open spec fn file_name_of(s: Seq<char>) -> Option<Seq<char>>
    decreases s.len(),
{
    if s.len() == 0 {
        None
    } else if s.last() == '/' {
        file_name_of(s.drop_last())
    } else if last_segment(s) == seq!['.'] {
        file_name_of(s.drop_last())
    } else if last_segment(s) == seq!['.', '.'] {
        None
    } else {
        Some(last_segment(s))
    }
}

/// Index of the last `.` in `f`, or -1 when there is none.
pub open spec fn last_dot(f: Seq<char>) -> int
    decreases f.len(),
{
    if f.len() == 0 {
        -1
    } else if f.last() == '.' {
        f.len() - 1
    } else {
        last_dot(f.drop_last())
    }
}

/// A file name split at its last dot into stem and extension. There is no
/// extension when the name holds no dot, when its only dot leads it, and for `..`.
pub open spec fn split_extension(f: Seq<char>) -> (Seq<char>, Option<Seq<char>>) {
    let d = last_dot(f);
    if f == seq!['.', '.'] || d <= 0 {
        (f, None)
    } else {
        (f.subrange(0, d), Some(f.subrange(d + 1, f.len() as int)))
    }
}

/// The extension (without its dot) of the path written `s`.
pub open spec fn extension_of(s: Seq<char>) -> Option<Seq<char>> {
    match file_name_of(s) {
        Some(f) => split_extension(f).1,
        None => None,
    }
}

/// The file name of the path written `s`, without its extension.
pub open spec fn file_stem_of(s: Seq<char>) -> Option<Seq<char>> {
    match file_name_of(s) {
        Some(f) => Some(split_extension(f).0),
        None => None,
    }
}

proof fn lemma_last_segment_extend(s: Seq<char>, start: int, end: int)
    requires
        0 < start <= end <= s.len(),
        s[start - 1] != '/',
        last_segment(s.take(end)) == last_segment(s.take(start)) + s.subrange(start, end),
    ensures
        last_segment(s.take(end)) == last_segment(s.take(start - 1)) + s.subrange(start - 1, end),
{
    assert(s.take(start).drop_last() =~= s.take(start - 1));
    assert(s.take(start).last() == s[start - 1]);
    assert(last_segment(s.take(start)) == last_segment(s.take(start - 1)).push(s[start - 1]));
    assert(last_segment(s.take(start - 1)).push(s[start - 1]) + s.subrange(start, end)
        =~= last_segment(s.take(start - 1)) + s.subrange(start - 1, end));
}

/// Start of the last segment of `cs[..end]`.
fn segment_start(cs: &Vec<char>, end: usize) -> (start: usize)
    requires
        end <= cs@.len(),
    ensures
        start <= end,
        last_segment(cs@.take(end as int)) == cs@.subrange(start as int, end as int),
{
    let mut start = end;
    assert(cs@.subrange(end as int, end as int) =~= Seq::<char>::empty());
    while start > 0 && cs[start - 1] != '/'
        invariant
            start <= end <= cs@.len(),
            last_segment(cs@.take(end as int)) == last_segment(cs@.take(start as int))
                + cs@.subrange(start as int, end as int),
        decreases start,
    {
        proof {
            lemma_last_segment_extend(cs@, start as int, end as int);
        }
        start -= 1;
    }
    proof {
        if start > 0 {
            assert(cs@.take(start as int).last() == '/');
        }
        assert(last_segment(cs@.take(start as int)) =~= Seq::<char>::empty());
        assert(last_segment(cs@.take(end as int)) =~= cs@.subrange(start as int, end as int));
    }
    start
}

/// Where the file name of the path written `cs` lies in `cs`.
pub fn file_name_range(cs: &Vec<char>) -> (r: Option<(usize, usize)>)
    ensures
        match r {
            Some((a, b)) => a <= b <= cs@.len() && file_name_of(cs@) == Some(
                cs@.subrange(a as int, b as int),
            ),
            None => file_name_of(cs@) is None,
        },
{
    let mut end: usize = cs.len();
    assert(cs@.take(end as int) =~= cs@);
    loop
        invariant
            end <= cs@.len(),
            file_name_of(cs@.take(end as int)) == file_name_of(cs@),
        decreases end,
    {
        if end == 0 {
            return None;
        }
        assert(cs@.take(end as int).drop_last() =~= cs@.take(end - 1));
        if cs[end - 1] == '/' {
            end -= 1;
        } else {
            let start = segment_start(cs, end);
            let seg_len = end - start;
            if seg_len == 1 && cs[start] == '.' {
                assert(cs@.subrange(start as int, end as int) =~= seq!['.']);
                end -= 1;
            } else if seg_len == 2 && cs[start] == '.' && cs[start + 1] == '.' {
                assert(cs@.subrange(start as int, end as int) =~= seq!['.', '.']);
                return None;
            } else {
                let ghost seg = cs@.subrange(start as int, end as int);
                assert(seg != seq!['.']) by {
                    if seg == seq!['.'] {
                        assert(seg.len() == 1);
                        assert(seg[0] == cs@[start as int]);
                    }
                }
                assert(seg != seq!['.', '.']) by {
                    if seg == seq!['.', '.'] {
                        assert(seg.len() == 2);
                        assert(seg[0] == cs@[start as int]);
                        assert(seg[1] == cs@[start + 1]);
                    }
                }
                return Some((start, end));
            }
        }
    }
}

pub proof fn lemma_last_dot_range(f: Seq<char>)
    ensures
        -1 <= last_dot(f) < f.len(),
        last_dot(f) >= 0 ==> f[last_dot(f)] == '.',
        forall|k: int| last_dot(f) < k < f.len() ==> f[k] != '.',
    decreases f.len(),
{
    if f.len() > 0 && f.last() != '.' {
        lemma_last_dot_range(f.drop_last());
        assert forall|k: int| last_dot(f) < k < f.len() implies f[k] != '.' by {
            if k < f.len() - 1 {
                assert(f[k] == f.drop_last()[k]);
            }
        }
    }
}

/// Index, within `cs[a..b]`, of the last `.` there.
pub fn last_dot_in(cs: &Vec<char>, a: usize, b: usize) -> (d: Option<usize>)
    requires
        a <= b <= cs@.len(),
    ensures
        match d {
            Some(k) => last_dot(cs@.subrange(a as int, b as int)) == k,
            None => last_dot(cs@.subrange(a as int, b as int)) == -1,
        },
{
    let ghost f = cs@.subrange(a as int, b as int);
    let mut i: usize = b;
    assert(f.take(b - a) =~= f);
    while i > a
        invariant
            a <= i <= b <= cs@.len(),
            f == cs@.subrange(a as int, b as int),
            last_dot(f) == last_dot(f.take(i - a)),
        decreases i,
    {
        assert(f.take(i - a).last() == cs@[i - 1]);
        if cs[i - 1] == '.' {
            return Some(i - 1 - a);
        }
        assert(f.take(i - a).drop_last() =~= f.take(i - 1 - a));
        i -= 1;
    }
    assert(f.take(0) =~= Seq::<char>::empty());
    None
}

/// Where the stem and the extension of the file name `cs[a..b]` lie: the
/// stem is `cs[a..s]`; the extension, when there is one, is `cs[s + 1..b]`.
pub fn split_extension_at(cs: &Vec<char>, a: usize, b: usize) -> (r: (usize, bool))
    requires
        a <= b <= cs@.len(),
    ensures
        a <= r.0 <= b,
        r.1 ==> r.0 < b,
        split_extension(cs@.subrange(a as int, b as int)).0 == cs@.subrange(a as int, r.0 as int),
        split_extension(cs@.subrange(a as int, b as int)).1 == (if r.1 {
            Some(cs@.subrange(r.0 + 1, b as int))
        } else {
            None::<Seq<char>>
        }),
{
    let ghost f = cs@.subrange(a as int, b as int);
    proof {
        lemma_last_dot_range(f);
    }
    let is_dot_dot = b - a == 2 && cs[a] == '.' && cs[a + 1] == '.';
    assert(is_dot_dot == (f == seq!['.', '.'])) by {
        if f == seq!['.', '.'] {
            assert(f.len() == 2);
            assert(f[0] == cs@[a as int]);
            assert(f[1] == cs@[a + 1]);
        }
        if is_dot_dot {
            assert(f =~= seq!['.', '.']);
        }
    }
    if is_dot_dot {
        assert(cs@.subrange(a as int, b as int) =~= f);
        return (b, false);
    }
    match last_dot_in(cs, a, b) {
        Some(d) if d > 0 => {
            assert(f.subrange(0, d as int) =~= cs@.subrange(a as int, a + d));
            assert(f.subrange(d + 1, f.len() as int) =~= cs@.subrange(a + d + 1, b as int));
            (a + d, true)
        },
        _ => {
            assert(cs@.subrange(a as int, b as int) =~= f);
            (b, false)
        },
    }
}


/// `c` does not occur in `s`.
pub open spec fn free_of(s: Seq<char>, c: char) -> bool {
    forall|i: int| 0 <= i < s.len() ==> s[i] != c
}

/// The last `.` of `f` is at `d` when no `.` follows it.
pub proof fn lemma_last_dot_at(f: Seq<char>, d: int)
    requires
        -1 <= d < f.len(),
        d >= 0 ==> f[d] == '.',
        forall|k: int| d < k < f.len() ==> f[k] != '.',
    ensures
        last_dot(f) == d,
    decreases f.len(),
{
    if f.len() > 0 && f.last() != '.' {
        assert forall|k: int| d < k < f.drop_last().len() implies f.drop_last()[k] != '.' by {
            assert(f.drop_last()[k] == f[k]);
        }
        if d >= 0 {
            assert(f.drop_last()[d] == f[d]);
        }
        lemma_last_dot_at(f.drop_last(), d);
    }
}

/// A text without `/` is its own last segment.
pub proof fn lemma_last_segment_whole(s: Seq<char>)
    requires
        free_of(s, '/'),
    ensures
        last_segment(s) == s,
    decreases s.len(),
{
    if s.len() > 0 {
        assert(free_of(s.drop_last(), '/')) by {
            assert forall|i: int| 0 <= i < s.drop_last().len() implies s.drop_last()[i] != '/' by {
                assert(s.drop_last()[i] == s[i]);
            }
        }
        lemma_last_segment_whole(s.drop_last());
        assert(s.drop_last().push(s.last()) =~= s);
    }
}

/// A last segment holds no `/`.
pub proof fn lemma_last_segment_free(s: Seq<char>)
    ensures
        free_of(last_segment(s), '/'),
    decreases s.len(),
{
    if s.len() > 0 && s.last() != '/' {
        lemma_last_segment_free(s.drop_last());
        let t = last_segment(s.drop_last());
        assert forall|i: int| 0 <= i < t.push(s.last()).len() implies t.push(s.last())[i] != '/' by {
            if i < t.len() {
                assert(t.push(s.last())[i] == t[i]);
            }
        }
    }
}

/// The file name of a path, when there is one, holds no `/`.
pub proof fn lemma_file_name_free(s: Seq<char>)
    ensures
        file_name_of(s) matches Some(f) ==> free_of(f, '/'),
    decreases s.len(),
{
    if s.len() > 0 {
        if s.last() == '/' || last_segment(s) == seq!['.'] {
            lemma_file_name_free(s.drop_last());
        } else {
            lemma_last_segment_free(s);
        }
    }
}

/// An extension holds neither `/` nor `.`.
pub proof fn lemma_extension_free(s: Seq<char>)
    ensures
        extension_of(s) matches Some(e) ==> free_of(e, '/') && free_of(e, '.'),
{
    lemma_file_name_free(s);
    if let Some(f) = file_name_of(s) {
        lemma_last_dot_range(f);
        let d = last_dot(f);
        if !(f == seq!['.', '.'] || d <= 0) {
            let e = f.subrange(d + 1, f.len() as int);
            assert forall|i: int| 0 <= i < e.len() implies e[i] != '/' && e[i] != '.' by {
                assert(e[i] == f[d + 1 + i]);
            }
        }
    }
}

/// A name without `/` that is neither `.` nor `..` is its own file name.
pub proof fn lemma_file_name_whole(w: Seq<char>)
    requires
        w.len() > 0,
        free_of(w, '/'),
        w != seq!['.'],
        w != seq!['.', '.'],
    ensures
        file_name_of(w) == Some(w),
{
    lemma_last_segment_whole(w);
}

} // verus!
