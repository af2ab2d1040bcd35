use vstd::prelude::*;
use vstd::set_lib::{lemma_int_range, lemma_len_subset, lemma_map_size, set_int_range};

use rand::rngs::StdRng;
use vstd::string::StringSliceAdditionalSpecFns;

use crate::file_name::{
    extension_of, file_name_range, file_stem_of, free_of, lemma_extension_free,
    lemma_file_name_whole, lemma_last_dot_at, split_extension_at,
};
use crate::random::{choose_byte, std_rng_from, thread_rng};
use crate::text::{append_str, chars_of, opt_view, push_char, range_equals, string_of_range};

verus! {

/// The characters a random body is drawn from, in this order.
pub const CHARSET: &'static str = "abcdefghijklmnopqrstuvwxyzABCDEFGHIJKLMNOPQRSTUVWXYZ0123456789";

/// The `d`-th character of `CHARSET` (`0 <= d < 62`).
pub open spec fn charset_at(d: int) -> char {
    if d < 26 {
        ((97 + d) as u32) as char
    } else if d < 52 {
        ((65 + (d - 26)) as u32) as char
    } else {
        ((48 + (d - 52)) as u32) as char
    }
}

/// A character of `CHARSET`: an ASCII letter or digit.
pub open spec fn is_name_char(c: char) -> bool {
    ||| (97 <= c as u32 && c as u32 <= 122)
    ||| (65 <= c as u32 && c as u32 <= 90)
    ||| (48 <= c as u32 && c as u32 <= 57)
}

/// `CHARSET` lists, in order, the 62 characters `charset_at(0..62)`: the
/// ASCII letters and digits.
pub proof fn lemma_charset_order()
    ensures
        CHARSET@.len() == 62,
        forall|d: int| 0 <= d < 62 ==> CHARSET@[d] == #[trigger] charset_at(d),
        forall|c: char| is_name_char(c) <==> #[trigger] CHARSET@.contains(c),
{
    reveal_strlit("abcdefghijklmnopqrstuvwxyzABCDEFGHIJKLMNOPQRSTUVWXYZ0123456789");
    assert forall|c: char| is_name_char(c) implies #[trigger] CHARSET@.contains(c) by {
        let d = charset_index(c);
        lemma_charset_index(c);
        assert(CHARSET@[d] == charset_at(d));
    }
}

/// Number of distinct bodies of `len` characters: 62 to the power `len`.
pub open spec fn name_space(len: nat) -> nat
    decreases len,
{
    if len == 0 {
        1
    } else {
        62 * name_space((len - 1) as nat)
    }
}

/// `name_space` grows strictly with the length.
pub proof fn lemma_name_space_strictly_grows(a: nat, b: nat)
    requires
        a < b,
    ensures
        name_space(a) < name_space(b),
    decreases b - a,
{
    lemma_name_space_positive(a);
    if b == a + 1 {
    } else {
        lemma_name_space_strictly_grows(a, (b - 1) as nat);
    }
}

/// `name_space` is at least one.
pub proof fn lemma_name_space_positive(a: nat)
    ensures
        name_space(a) >= 1,
    decreases a,
{
    if a > 0 {
        lemma_name_space_positive((a - 1) as nat);
    }
}

/// The value `max_names` gives for a length: the number of bodies, `62^length`,
/// for a length of at most 10, and `None` for longer ones.
pub open spec fn spec_max_names(length: usize) -> Option<u64> {
    if length <= 10 {
        Some(name_space(length as nat) as u64)
    } else {
        None
    }
}

proof fn lemma_name_space_ten()
    ensures
        name_space(10) == 839299365868340224,
        name_space(11) > u64::MAX,
{
    reveal_with_fuel(name_space, 12);
}

/// Number of distinct bodies a name can take for the given length, or `None`
/// when that number overflows `u64` (length >= 11), meaning no practical limit.
pub fn max_names(length: usize) -> (r: Option<u64>)
    ensures
        r == spec_max_names(length),
        r matches Some(n) ==> n == name_space(length as nat),
{
    if length > 10 {
        return None;
    }
    proof {
        lemma_name_space_ten();
    }
    let mut acc: u64 = 1;
    let mut i: usize = 0;
    while i < length
        invariant
            i <= length <= 10,
            acc == name_space(i as nat),
            name_space(10) == 839299365868340224,
        decreases length - i,
    {
        proof {
            if i + 1 < 10 {
                lemma_name_space_strictly_grows((i + 1) as nat, 10);
            }
        }
        acc = acc * 62;
        i += 1;
    }
    Some(acc)
}

/// `max_names` is `None` exactly when `62^length` does not fit in a `u64`:
/// for every length of 11 and more.
pub proof fn lemma_max_names_none_iff_overflow(length: usize)
    ensures
        spec_max_names(length) is None <==> name_space(length as nat) > u64::MAX,
        spec_max_names(length) is None <==> length >= 11,
        spec_max_names(length) matches Some(n) ==> n == name_space(length as nat),
{
    lemma_name_space_ten();
    if length > 11 {
        lemma_name_space_strictly_grows(11, length as nat);
    } else if length < 10 {
        lemma_name_space_strictly_grows(length as nat, 10);
    }
}

/// `max_names` grows strictly with the length, as long as it is defined.
pub proof fn lemma_max_names_strictly_grows(a: usize, b: usize)
    requires
        a < b,
        spec_max_names(b) is Some,
    ensures
        spec_max_names(a) is Some,
        spec_max_names(a)->0 < spec_max_names(b)->0,
{
    lemma_max_names_none_iff_overflow(a);
    lemma_max_names_none_iff_overflow(b);
    lemma_name_space_strictly_grows(a as nat, b as nat);
}


/// Position of a `CHARSET` character in `CHARSET`.
pub open spec fn charset_index(c: char) -> int {
    if 97 <= c as u32 && c as u32 <= 122 {
        c as u32 - 97
    } else if 65 <= c as u32 && c as u32 <= 90 {
        c as u32 - 65 + 26
    } else {
        c as u32 - 48 + 52
    }
}

/// A body: `len` characters of `CHARSET`.
pub open spec fn is_body(b: Seq<char>, len: nat) -> bool {
    &&& b.len() == len
    &&& forall|i: int| 0 <= i < b.len() ==> #[trigger] is_name_char(b[i])
}

/// The body of `len` characters whose digits, in base 62 with the least
/// significant first, spell `i` over `CHARSET`.
pub open spec fn body_of(i: nat, len: nat) -> Seq<char>
    decreases len,
{
    if len == 0 {
        Seq::empty()
    } else {
        seq![charset_at((i % 62) as int)] + body_of(i / 62, (len - 1) as nat)
    }
}

/// The number that `body_of` spells as `b`.
pub open spec fn index_of_body(b: Seq<char>) -> nat
    decreases b.len(),
{
    if b.len() == 0 {
        0
    } else {
        (charset_index(b[0]) + 62 * index_of_body(b.drop_first())) as nat
    }
}

proof fn lemma_charset_at(d: int)
    requires
        0 <= d < 62,
    ensures
        is_name_char(charset_at(d)),
        charset_index(charset_at(d)) == d,
{
}

proof fn lemma_charset_index(c: char)
    requires
        is_name_char(c),
    ensures
        0 <= charset_index(c) < 62,
        charset_at(charset_index(c)) == c,
{
}

/// Every `body_of` is a body.
pub proof fn lemma_body_of_is_body(i: nat, len: nat)
    ensures
        is_body(body_of(i, len), len),
    decreases len,
{
    if len > 0 {
        lemma_body_of_is_body(i / 62, (len - 1) as nat);
        lemma_charset_at((i % 62) as int);
        let b = body_of(i, len);
        assert forall|k: int| 0 <= k < b.len() implies #[trigger] is_name_char(b[k]) by {
            if k > 0 {
                assert(b[k] == body_of(i / 62, (len - 1) as nat)[k - 1]);
            }
        }
    }
}

/// Distinct numbers below `62^len` give distinct bodies.
pub proof fn lemma_body_of_injective(i: nat, j: nat, len: nat)
    requires
        i < name_space(len),
        j < name_space(len),
        body_of(i, len) == body_of(j, len),
    ensures
        i == j,
    decreases len,
{
    if len > 0 {
        let bi = body_of(i, len);
        let bj = body_of(j, len);
        assert(bi[0] == charset_at((i % 62) as int));
        assert(bj[0] == charset_at((j % 62) as int));
        lemma_charset_at((i % 62) as int);
        lemma_charset_at((j % 62) as int);
        assert(bi.drop_first() =~= body_of(i / 62, (len - 1) as nat));
        assert(bj.drop_first() =~= body_of(j / 62, (len - 1) as nat));
        assert(i / 62 < name_space((len - 1) as nat)) by (nonlinear_arith)
            requires
                i < 62 * name_space((len - 1) as nat),
        ;
        assert(j / 62 < name_space((len - 1) as nat)) by (nonlinear_arith)
            requires
                j < 62 * name_space((len - 1) as nat),
        ;
        lemma_body_of_injective(i / 62, j / 62, (len - 1) as nat);
        assert(i == 62 * (i / 62) + i % 62);
        assert(j == 62 * (j / 62) + j % 62);
    }
}

/// Every body is the `body_of` of a number below `62^len`.
pub proof fn lemma_body_has_index(b: Seq<char>, len: nat)
    requires
        is_body(b, len),
    ensures
        index_of_body(b) < name_space(len),
        body_of(index_of_body(b), len) == b,
    decreases len,
{
    if len > 0 {
        let rest = b.drop_first();
        assert(is_name_char(b[0]));
        assert forall|k: int| 0 <= k < rest.len() implies #[trigger] is_name_char(rest[k]) by {
            assert(rest[k] == b[k + 1]);
        }
        lemma_body_has_index(rest, (len - 1) as nat);
        lemma_charset_index(b[0]);
        let d = charset_index(b[0]);
        let r = index_of_body(rest);
        let n = index_of_body(b);
        assert(n == d + 62 * r);
        assert(n % 62 == d && n / 62 == r) by {
            vstd::arithmetic::div_mod::lemma_fundamental_div_mod_converse(n as int, 62, r as int, d);
        }
        assert(n < 62 * name_space((len - 1) as nat)) by (nonlinear_arith)
            requires
                r < name_space((len - 1) as nat),
                0 <= d < 62,
                n == d + 62 * r,
        ;
        assert(body_of(n, len) =~= b);
    }
}


/// The extension of the path written `s`, with its leading dot.
pub open spec fn spec_extension_with_dot(s: Seq<char>) -> Option<Seq<char>> {
    match extension_of(s) {
        Some(e) => Some(seq!['.'] + e),
        None => None,
    }
}

/// Extension of a file name, including the leading dot, e.g. "photo.jpg" -> Some(".jpg").
/// Returns `None` for names without an extension (including directories and dotfiles).
pub fn extension_with_dot(file_name: &str) -> (r: Option<String>)
    ensures
        opt_view(r) == spec_extension_with_dot(file_name@),
{
    let cs = chars_of(file_name);
    match file_name_range(&cs) {
        None => None,
        Some((a, b)) => {
            let (s, has_ext) = split_extension_at(&cs, a, b);
            if has_ext {
                let mut r = String::new();
                push_char(&mut r, '.');
                let e = string_of_range(&cs, s + 1, b);
                append_str(&mut r, e.as_str());
                assert(r@ =~= seq!['.'] + cs@.subrange(s + 1, b as int));
                Some(r)
            } else {
                None
            }
        },
    }
}

/// The name a generated name is made from: for a directory its whole name,
/// for a file its stem.
pub open spec fn spec_bare_name(file_name: Seq<char>, is_dir: bool) -> Option<Seq<char>> {
    if is_dir {
        Some(file_name)
    } else {
        file_stem_of(file_name)
    }
}

/// The bare name of an item name (not empty, without `/`, neither `.` nor
/// `..`): a directory's is the whole name (`my.dir` stays whole); a file's,
/// followed by its extension with the dot, gives the name back
/// (`archive.tar.gz` is `archive.tar` and `.gz`).
pub proof fn lemma_bare_name_then_extension(file_name: Seq<char>, is_dir: bool)
    requires
        file_name.len() > 0,
        free_of(file_name, '/'),
        file_name != seq!['.'],
        file_name != seq!['.', '.'],
    ensures
        spec_bare_name(file_name, is_dir) is Some,
        is_dir ==> spec_bare_name(file_name, is_dir) == Some(file_name),
        !is_dir ==> spec_bare_name(file_name, is_dir)->0 + ext_text(spec_extension_with_dot(file_name))
            == file_name,
{
    lemma_file_name_whole(file_name);
    crate::file_name::lemma_last_dot_range(file_name);
    let d = crate::file_name::last_dot(file_name);
    if !(file_name == seq!['.', '.'] || d <= 0) {
        assert(file_name.subrange(0, d) + (seq!['.'] + file_name.subrange(d + 1, file_name.len() as int))
            =~= file_name);
    } else {
        assert(file_name + Seq::<char>::empty() =~= file_name);
    }
}

/// The "bare" part of a name, i.e. without the last extension (for files only).
/// Directories are never stripped, even if their name contains a dot.
fn bare_name(file_name: &str, is_dir: bool) -> (r: Option<Vec<char>>)
    ensures
        match r {
            Some(b) => spec_bare_name(file_name@, is_dir) == Some(b@),
            None => spec_bare_name(file_name@, is_dir) is None,
        },
{
    let cs = chars_of(file_name);
    if is_dir {
        return Some(cs);
    }
    match file_name_range(&cs) {
        None => None,
        Some((a, b)) => {
            let (s, _) = split_extension_at(&cs, a, b);
            let mut stem: Vec<char> = Vec::new();
            let mut i = a;
            while i < s
                invariant
                    a <= i <= s <= cs@.len(),
                    stem@ == cs@.subrange(a as int, i as int),
                decreases s - i,
            {
                stem.push(cs[i]);
                assert(cs@.subrange(a as int, i as int).push(cs@[i as int]) =~= cs@.subrange(
                    a as int,
                    i + 1,
                ));
                i += 1;
            }
            Some(stem)
        },
    }
}

/// The text of an optional extension: empty when there is none.
pub open spec fn ext_text(ext: Option<Seq<char>>) -> Seq<char> {
    match ext {
        Some(e) => e,
        None => Seq::empty(),
    }
}

/// The name `prefix + body + suffix [+ ext]`.
pub open spec fn spec_assemble(
    prefix: Seq<char>,
    body: Seq<char>,
    suffix: Seq<char>,
    ext: Option<Seq<char>>,
) -> Seq<char> {
    prefix + body + suffix + ext_text(ext)
}

/// The view of an optional string slice.
pub open spec fn opt_str_view(o: Option<&str>) -> Option<Seq<char>> {
    match o {
        Some(s) => Some(s@),
        None => None,
    }
}

/// Assemble the final name: prefix + body + suffix [+ extension].
pub fn assemble_name(prefix: &str, body: &str, suffix: &str, ext: Option<&str>) -> (r: String)
    ensures
        r@ == spec_assemble(prefix@, body@, suffix@, opt_str_view(ext)),
{
    let mut name = prefix.to_owned();
    append_str(&mut name, body);
    append_str(&mut name, suffix);
    if let Some(ext) = ext {
        append_str(&mut name, ext);
    }
    assert(name@ =~= spec_assemble(prefix@, body@, suffix@, opt_str_view(ext)));
    name
}


/// Whether `c` is a character of `CHARSET`.
pub fn is_name_char_exec(c: char) -> (r: bool)
    ensures
        r == is_name_char(c),
{
    let v = c as u32;
    (97 <= v && v <= 122) || (65 <= v && v <= 90) || (48 <= v && v <= 57)
}

/// The `d`-th character of `CHARSET`.
pub fn charset_char(d: usize) -> (c: char)
    requires
        d < 62,
    ensures
        c == charset_at(d as int),
{
    let byte: u8 = if d < 26 {
        97 + d as u8
    } else if d < 52 {
        65 + (d - 26) as u8
    } else {
        48 + (d - 52) as u8
    };
    byte as char
}

/// The body `body_of(i, len)` as a string.
pub fn body_text(i: usize, len: usize) -> (r: String)
    ensures
        r@ == body_of(i as nat, len as nat),
{
    let mut r = String::new();
    let mut n: usize = i;
    let mut k: usize = 0;
    while k < len
        invariant
            k <= len,
            r@ + body_of(n as nat, (len - k) as nat) == body_of(i as nat, len as nat),
        decreases len - k,
    {
        let c = charset_char(n % 62);
        proof {
            assert(r@ + body_of(n as nat, (len - k) as nat) =~= r@.push(c) + body_of(
                (n / 62) as nat,
                (len - k - 1) as nat,
            ));
        }
        push_char(&mut r, c);
        n = n / 62;
        k += 1;
    }
    assert(r@ + body_of(n as nat, 0) =~= r@);
    r
}


proof fn lemma_charset_bytes(bytes: Seq<u8>)
    requires
        bytes == CHARSET.spec_bytes(),
    ensures
        forall|b: u8| bytes.contains(b) ==> is_name_char(b as char),
{
    reveal_strlit("abcdefghijklmnopqrstuvwxyzABCDEFGHIJKLMNOPQRSTUVWXYZ0123456789");
    assert(vstd::string::is_ascii(CHARSET));
    assert(bytes =~= Seq::new(CHARSET@.len(), |i| CHARSET@.index(i) as u8));
    assert forall|b: u8| bytes.contains(b) implies is_name_char(b as char) by {
        let i = choose|i: int| 0 <= i < bytes.len() && bytes[i] == b;
        assert(is_name_char(CHARSET@[i]));
    }
}

/// A random body of `length` characters of `CHARSET`, each drawn from `rng`.
pub fn random_body(length: usize, rng: &mut StdRng) -> (r: String)
    ensures
        is_body(r@, length as nat),
{
    let bytes = CHARSET.as_bytes();
    proof {
        lemma_charset_bytes(bytes@);
        reveal_strlit("abcdefghijklmnopqrstuvwxyzABCDEFGHIJKLMNOPQRSTUVWXYZ0123456789");
    }
    let mut r = String::new();
    let mut k: usize = 0;
    while k < length
        invariant
            k <= length,
            forall|b: u8| bytes@.contains(b) ==> is_name_char(b as char),
            bytes@.len() > 0,
            is_body(r@, k as nat),
        decreases length - k,
    {
        match choose_byte(bytes, rng) {
            Some(b) => {
                push_char(&mut r, b as char);
            },
            None => {
                assert(false);
            },
        }
        k += 1;
    }
    r
}


/// The views of a list of strings.
pub open spec fn names_view(names: Seq<String>) -> Seq<Seq<char>> {
    names.map_values(|s: String| s@)
}

/// How many random bodies `generate` draws before it searches the free names in order.
pub const GENERATE_ATTEMPTS: u32 = 1 << 20;

/// The name that `body_of(i, length)` gives in the pattern `prefix + body + suffix [+ ext]`.
pub open spec fn enumerated_name(
    prefix: Seq<char>,
    suffix: Seq<char>,
    length: nat,
    ext: Option<Seq<char>>,
    i: int,
) -> Seq<char> {
    spec_assemble(prefix, body_of(i as nat, length), suffix, ext)
}

/// A name of the pattern `prefix + body + suffix [+ ext]`, its body being `length`
/// characters of `CHARSET`.
pub open spec fn is_candidate(
    prefix: Seq<char>,
    suffix: Seq<char>,
    length: nat,
    ext: Option<Seq<char>>,
    name: Seq<char>,
) -> bool {
    let body = name.subrange(prefix.len() as int, (prefix.len() + length) as int);
    &&& name.len() == prefix.len() + length + suffix.len() + ext_text(ext).len()
    &&& is_body(body, length)
    &&& name == spec_assemble(prefix, body, suffix, ext)
}

/// All the names of the pattern `prefix + body + suffix [+ ext]`.
pub open spec fn candidates(
    prefix: Seq<char>,
    suffix: Seq<char>,
    length: nat,
    ext: Option<Seq<char>>,
) -> Set<Seq<char>> {
    Set::new(|name: Seq<char>| is_candidate(prefix, suffix, length, ext, name))
}

/// A name assembled from a body is a candidate.
pub proof fn lemma_assembled_is_candidate(
    prefix: Seq<char>,
    body: Seq<char>,
    suffix: Seq<char>,
    length: nat,
    ext: Option<Seq<char>>,
)
    requires
        is_body(body, length),
    ensures
        is_candidate(prefix, suffix, length, ext, spec_assemble(prefix, body, suffix, ext)),
{
    let name = spec_assemble(prefix, body, suffix, ext);
    assert(name.subrange(prefix.len() as int, (prefix.len() + length) as int) =~= body);
}

/// Equal candidates have equal bodies.
proof fn lemma_assemble_injective(
    prefix: Seq<char>,
    b1: Seq<char>,
    b2: Seq<char>,
    suffix: Seq<char>,
    ext: Option<Seq<char>>,
)
    requires
        b1.len() == b2.len(),
        spec_assemble(prefix, b1, suffix, ext) == spec_assemble(prefix, b2, suffix, ext),
    ensures
        b1 == b2,
{
    let n1 = spec_assemble(prefix, b1, suffix, ext);
    let n2 = spec_assemble(prefix, b2, suffix, ext);
    assert(n1.subrange(prefix.len() as int, (prefix.len() + b1.len()) as int) =~= b1);
    assert(n2.subrange(prefix.len() as int, (prefix.len() + b2.len()) as int) =~= b2);
}

/// The first `m` enumerated names are `m` distinct names, when `m <= 62^length`.
proof fn lemma_enumerated_count(
    prefix: Seq<char>,
    suffix: Seq<char>,
    length: nat,
    ext: Option<Seq<char>>,
    m: int,
)
    requires
        0 <= m <= name_space(length),
    ensures
        set_int_range(0, m).map(|i: int| enumerated_name(prefix, suffix, length, ext, i)).finite(),
        set_int_range(0, m).map(|i: int| enumerated_name(prefix, suffix, length, ext, i)).len()
            == m,
{
    let f = |i: int| enumerated_name(prefix, suffix, length, ext, i);
    lemma_int_range(0, m);
    assert forall|i: int, j: int|
        set_int_range(0, m).contains(i) && set_int_range(0, m).contains(j) && #[trigger] f(i)
            == #[trigger] f(j) implies i == j by {
        lemma_body_of_is_body(i as nat, length);
        lemma_body_of_is_body(j as nat, length);
        lemma_assemble_injective(
            prefix,
            body_of(i as nat, length),
            body_of(j as nat, length),
            suffix,
            ext,
        );
        lemma_body_of_injective(i as nat, j as nat, length);
    }
    lemma_map_size(set_int_range(0, m), set_int_range(0, m).map(f), f);
}

/// Every candidate is enumerated below `62^length`.
proof fn lemma_candidate_enumerated(
    prefix: Seq<char>,
    suffix: Seq<char>,
    length: nat,
    ext: Option<Seq<char>>,
    name: Seq<char>,
)
    requires
        is_candidate(prefix, suffix, length, ext, name),
    ensures
        ({
            let i = index_of_body(name.subrange(prefix.len() as int, (prefix.len() + length) as int)) as int;
            &&& 0 <= i < name_space(length)
            &&& enumerated_name(prefix, suffix, length, ext, i) == name
        }),
{
    lemma_body_has_index(name.subrange(prefix.len() as int, (prefix.len() + length) as int), length);
}

/// There are exactly `62^length` candidates.
pub proof fn lemma_candidates_count(
    prefix: Seq<char>,
    suffix: Seq<char>,
    length: nat,
    ext: Option<Seq<char>>,
)
    ensures
        candidates(prefix, suffix, length, ext).finite(),
        candidates(prefix, suffix, length, ext).len() == name_space(length),
{
    let m = name_space(length) as int;
    let f = |i: int| enumerated_name(prefix, suffix, length, ext, i);
    lemma_enumerated_count(prefix, suffix, length, ext, m);
    let e = set_int_range(0, m).map(f);
    assert forall|name: Seq<char>| #[trigger] e.contains(name) <==> candidates(
        prefix,
        suffix,
        length,
        ext,
    ).contains(name) by {
        if e.contains(name) {
            let i = choose|i: int| set_int_range(0, m).contains(i) && f(i) == name;
            lemma_body_of_is_body(i as nat, length);
            lemma_assembled_is_candidate(prefix, body_of(i as nat, length), suffix, length, ext);
        }
        if candidates(prefix, suffix, length, ext).contains(name) {
            lemma_candidate_enumerated(prefix, suffix, length, ext, name);
            let i = index_of_body(name.subrange(prefix.len() as int, (prefix.len() + length) as int)) as int;
            assert(set_int_range(0, m).contains(i));
        }
    }
    assert(e =~= candidates(prefix, suffix, length, ext));
}

/// A pool key: none, or an extension that is not empty.
pub open spec fn valid_key(k: Option<Seq<char>>) -> bool {
    k matches Some(x) ==> x.len() > 0
}

/// Candidates of two different pools never coincide.
pub proof fn lemma_candidates_disjoint(
    prefix: Seq<char>,
    suffix: Seq<char>,
    length: nat,
    k1: Option<Seq<char>>,
    k2: Option<Seq<char>>,
    name: Seq<char>,
)
    requires
        valid_key(k1),
        valid_key(k2),
        k1 != k2,
    ensures
        !(is_candidate(prefix, suffix, length, k1, name) && is_candidate(prefix, suffix, length, k2, name)),
{
    if is_candidate(prefix, suffix, length, k1, name) && is_candidate(prefix, suffix, length, k2, name) {
        let start = prefix.len() + length + suffix.len();
        assert(name.subrange(start as int, name.len() as int) =~= ext_text(k1));
        assert(name.subrange(start as int, name.len() as int) =~= ext_text(k2));
    }
}

/// Pool keys are valid.
pub proof fn lemma_pool_key_valid(file_name: Seq<char>, is_dir: bool)
    ensures
        valid_key(spec_pool_key(file_name, is_dir)),
{
}

/// `min(62^len, cap)`.
fn capped_name_space(len: usize, cap: u128) -> (r: u128)
    requires
        cap <= u64::MAX + 1,
    ensures
        r == if name_space(len as nat) < cap {
            name_space(len as nat)
        } else {
            cap as nat
        },
{
    proof {
        lemma_name_space_positive(len as nat);
    }
    if cap <= 1 {
        return cap;
    }
    let mut acc: u128 = 1;
    let mut k: usize = 0;
    while k < len
        invariant
            k <= len,
            1 < cap <= u64::MAX + 1,
            acc == name_space(k as nat),
            acc < cap,
        decreases len - k,
    {
        if acc * 62 >= cap {
            proof {
                if k + 1 < len {
                    lemma_name_space_strictly_grows((k + 1) as nat, len as nat);
                }
            }
            return cap;
        }
        acc = acc * 62;
        k += 1;
    }
    acc
}

/// A set of names, each held once, in the order they were added. It is a
/// `Vec` rather than a `std::collections::HashSet<String>`: vstd specifies
/// `HashSet` only for keys proved to obey its hashing model
/// (`obeys_key_model`), which covers primitive integers and `bool`, not
/// `String`, and such a fact about `String` could only be assumed.
struct NameSet {
    names: Vec<String>,
}

impl NameSet {
    /// Each name is held once.
    #[verifier::type_invariant]
    spec fn held_once(self) -> bool {
        names_view(self.names@).no_duplicates()
    }

    /// The names held, as a set.
    spec fn view_set(self) -> Set<Seq<char>> {
        names_view(self.names@).to_set()
    }

    fn new() -> (r: Self)
        ensures
            r.view_set() == Set::<Seq<char>>::empty(),
            r.names@.len() == 0,
    {
        let r = NameSet { names: Vec::new() };
        assert(names_view(r.names@).to_set() =~= Set::<Seq<char>>::empty());
        r
    }

    /// Whether `name` is held.
    fn contains(&self, name: &String) -> (r: bool)
        ensures
            r == self.view_set().contains(name@),
    {
        let mut i: usize = 0;
        while i < self.names.len()
            invariant
                i <= self.names@.len(),
                forall|k: int| 0 <= k < i ==> self.names@[k]@ != name@,
            decreases self.names@.len() - i,
        {
            if self.names[i] == *name {
                assert(names_view(self.names@)[i as int] == name@);
                return true;
            }
            i += 1;
        }
        assert(!names_view(self.names@).contains(name@));
        false
    }

    /// Adds `name`, which must not be held yet.
    fn insert(&mut self, name: String)
        requires
            !old(self).view_set().contains(name@),
        ensures
            final(self).view_set() == old(self).view_set().insert(name@),
            final(self).names@.len() == old(self).names@.len() + 1,
    {
        proof {
            use_type_invariant(&*self);
        }
        let ghost before = names_view(self.names@);
        let mut names: Vec<String> = Vec::new();
        std::mem::swap(&mut names, &mut self.names);
        names.push(name);
        proof {
            assert(names_view(names@) =~= before.push(name@));
            assert forall|x: Seq<char>| #[trigger] names_view(names@).to_set().contains(x) <==> before.to_set().insert(name@).contains(x) by {
                if names_view(names@).contains(x) && x != name@ {
                    let k = choose|k: int| 0 <= k < names_view(names@).len() && names_view(names@)[k] == x;
                    assert(before[k] == x);
                }
                if before.contains(x) {
                    let k = choose|k: int| 0 <= k < before.len() && before[k] == x;
                    assert(names_view(names@)[k] == x);
                }
                if x == name@ {
                    assert(names_view(names@)[before.len() as int] == x);
                }
            }
            assert(names_view(names@).to_set() =~= before.to_set().insert(name@));
            assert forall|a: int, b: int| 0 <= a < b < names_view(names@).len() implies names_view(names@)[a] != names_view(names@)[b] by {
                if b == before.len() {
                    assert(before.contains(before[a]));
                }
            }
        }
        self.names = names;
    }
}

/// Generates unique random names, remembering existing names so that
/// a generated name never collides with them.
pub struct NameGenerator {
    prefix: String,
    suffix: String,
    length: usize,
    rng: StdRng,
    used: NameSet,
    drawn: Ghost<Seq<Seq<char>>>,
}

impl NameGenerator {
    /// The prefix of generated names.
    pub closed spec fn prefix_view(self) -> Seq<char> {
        self.prefix@
    }

    /// The suffix of generated names.
    pub closed spec fn suffix_view(self) -> Seq<char> {
        self.suffix@
    }

    /// The length of the random body.
    pub closed spec fn length_view(self) -> nat {
        self.length as nat
    }

    /// The bodies drawn from the random source so far, in order.
    pub closed spec fn drawn_bodies(self) -> Seq<Seq<char>> {
        self.drawn@
    }

    /// The names that can no longer be generated: reserved or already generated.
    pub closed spec fn used_names(self) -> Set<Seq<char>> {
        self.used.view_set()
    }

    /// The length is a `usize`.
    pub proof fn lemma_length_fits(self)
        ensures
            self.length_view() <= usize::MAX,
    {
    }

    /// The set of remembered names is finite.
    pub proof fn lemma_used_names_finite(self)
        ensures
            self.used_names().finite(),
    {
        names_view(self.used.names@).lemma_cardinality_of_set();
    }

    /// The names this generator produces for items whose pool is `ext`.
    pub open spec fn candidates_for(self, ext: Option<Seq<char>>) -> Set<Seq<char>> {
        candidates(self.prefix_view(), self.suffix_view(), self.length_view(), ext)
    }

    /// Whether a name of pool `ext` can still be generated.
    pub open spec fn has_free_name(self, ext: Option<Seq<char>>) -> bool {
        !self.candidates_for(ext).subset_of(self.used_names())
    }

    /// The same settings (prefix, suffix, length) as `other`.
    pub open spec fn same_settings(self, other: NameGenerator) -> bool {
        &&& self.prefix_view() == other.prefix_view()
        &&& self.suffix_view() == other.suffix_view()
        &&& self.length_view() == other.length_view()
    }

    /// A generator of names `prefix + body + suffix [+ extension]` with bodies
    /// of `length` characters drawn from `rng`, remembering no name yet.
    pub fn new(prefix: String, suffix: String, length: usize, rng: StdRng) -> (g: Self)
        ensures
            g.drawn_bodies() == Seq::<Seq<char>>::empty(),
            g.prefix_view() == prefix@,
            g.suffix_view() == suffix@,
            g.length_view() == length,
            g.used_names() == Set::<Seq<char>>::empty(),
    {
        NameGenerator { prefix, suffix, length, rng, used: NameSet::new(), drawn: Ghost(Seq::empty()) }
    }

    /// Convenience constructor using the thread-local RNG.
    pub fn new_thread(prefix: String, suffix: String, length: usize) -> (g: Self)
        ensures
            g.prefix_view() == prefix@,
            g.suffix_view() == suffix@,
            g.length_view() == length,
            g.used_names() == Set::<Seq<char>>::empty(),
    {
        let mut source = thread_rng();
        Self::new(prefix, suffix, length, std_rng_from(&mut source))
    }

    /// The length of the random body.
    pub fn length(&self) -> (r: usize)
        ensures
            r == self.length_view(),
    {
        self.length
    }

    /// Whether `name` is remembered.
    fn contains(&self, name: &String) -> (r: bool)
        ensures
            r == self.used_names().contains(name@),
    {
        self.used.contains(name)
    }

    /// Remembers `name` (which must not be remembered yet).
    fn remember(&mut self, name: String)
        requires
            !old(self).used_names().contains(name@),
        ensures
            final(self).same_settings(*old(self)),
            final(self).used_names() == old(self).used_names().insert(name@),
            final(self).used.names@.len() == old(self).used.names@.len() + 1,
            final(self).drawn_bodies() == old(self).drawn_bodies(),
    {
        self.used.insert(name);
    }

    /// Remember a name that must never be generated again (e.g. an existing item).
    pub fn reserve(&mut self, name: &str)
        ensures
            final(self).same_settings(*old(self)),
            final(self).used_names() == old(self).used_names().insert(name@),
    {
        let owned = name.to_owned();
        if !self.contains(&owned) {
            self.remember(owned);
        } else {
            assert(self.used_names().insert(name@) =~= self.used_names());
        }
    }

    /// Searches the names of pool `ext` in the order of `body_of` for one that is free.
    fn first_free(&mut self, ext: Option<&str>) -> (r: Option<String>)
        ensures
            final(self).same_settings(*old(self)),
            final(self).drawn_bodies() == old(self).drawn_bodies(),
            match r {
                Some(n) => {
                    &&& old(self).candidates_for(opt_str_view(ext)).contains(n@)
                    &&& !old(self).used_names().contains(n@)
                    &&& final(self).used_names() == old(self).used_names().insert(n@)
                },
                None => {
                    &&& !old(self).has_free_name(opt_str_view(ext))
                    &&& final(self).used_names() == old(self).used_names()
                },
            },
    {
        let ghost e = opt_str_view(ext);
        let ghost p = self.prefix@;
        let ghost s = self.suffix@;
        let ghost len = self.length as nat;
        let n_used: usize = self.used.names.len();
        let cap = capped_name_space(self.length, n_used as u128 + 1);
        let mut i: u128 = 0;
        while i < cap
            invariant
                self.drawn_bodies() == old(self).drawn_bodies(),
                self.same_settings(*old(self)),
                self.used_names() == old(self).used_names(),
                p == self.prefix@,
                s == self.suffix@,
                len == self.length,
                e == opt_str_view(ext),
                cap <= name_space(len),
                n_used == self.used.names@.len(),
                cap <= n_used + 1,
                cap == name_space(len) || cap == n_used + 1,
                i <= cap,
                forall|j: int|
                    0 <= j < i ==> self.used_names().contains(
                        #[trigger] enumerated_name(p, s, len, e, j),
                    ),
            decreases cap - i,
        {
            assert(i <= usize::MAX);
            let body = body_text(i as usize, self.length);
            let name = assemble_name(self.prefix.as_str(), body.as_str(), self.suffix.as_str(), ext);
            if !self.contains(&name) {
                proof {
                    lemma_body_of_is_body(i as nat, len);
                    lemma_assembled_is_candidate(p, body@, s, len, e);
                }
                self.remember(name.clone());
                return Some(name);
            }
            i += 1;
        }
        proof {
            let f = |j: int| enumerated_name(p, s, len, e, j);
            let en = set_int_range(0, cap as int).map(f);
            lemma_enumerated_count(p, s, len, e, cap as int);
            assert(en.subset_of(self.used_names()));
            self.lemma_used_names_finite();
            names_view(self.used.names@).lemma_cardinality_of_set();
            lemma_len_subset(en, self.used_names());
            assert forall|name: Seq<char>| #[trigger] candidates(p, s, len, e).contains(name) implies self.used_names().contains(name) by {
                lemma_candidate_enumerated(p, s, len, e, name);
                let j = index_of_body(name.subrange(p.len() as int, (p.len() + len) as int)) as int;
                assert(f(j) == name);
            }
        }
        None
    }

    /// Draws a body from the random source, recording it.
    fn draw_body(&mut self) -> (b: String)
        ensures
            final(self).drawn_bodies() == old(self).drawn_bodies().push(b@),
            is_body(b@, old(self).length_view()),
            final(self).same_settings(*old(self)),
            final(self).used_names() == old(self).used_names(),
    {
        let b = random_body(self.length, &mut self.rng);
        self.drawn = Ghost(self.drawn@.push(b@));
        b
    }

    /// Generates a fresh name for the item `file_name`, or `None` when every
    /// name of its pool is already taken. Random bodies are drawn until one
    /// gives a fresh name; after `GENERATE_ATTEMPTS` draws without one, the
    /// bodies are tried in the order of `body_of`, which finds a fresh name
    /// whenever there is one.
    pub fn try_generate(&mut self, file_name: &str, is_dir: bool) -> (r: Option<String>)
        ensures
            final(self).same_settings(*old(self)),
            final(self).drawn_bodies().len() > old(self).drawn_bodies().len(),
            final(self).drawn_bodies().subrange(0, old(self).drawn_bodies().len() as int)
                == old(self).drawn_bodies(),
            ({
                let b = final(self).drawn_bodies()[old(self).drawn_bodies().len() as int];
                let n = spec_assemble(
                    old(self).prefix_view(),
                    b,
                    old(self).suffix_view(),
                    spec_pool_key(file_name@, is_dir),
                );
                &&& is_body(b, old(self).length_view())
                &&& !old(self).used_names().contains(n) ==> (r matches Some(x) && x@ == n)
            }),
            match r {
                Some(n) => {
                    &&& old(self).candidates_for(spec_pool_key(file_name@, is_dir)).contains(n@)
                    &&& !old(self).used_names().contains(n@)
                    &&& final(self).used_names() == old(self).used_names().insert(n@)
                },
                None => {
                    &&& !old(self).has_free_name(spec_pool_key(file_name@, is_dir))
                    &&& final(self).used_names() == old(self).used_names()
                },
            },
    {
        let ext = if is_dir {
            None
        } else {
            extension_with_dot(file_name)
        };
        let ext_ref: Option<&str> = match &ext {
            Some(e) => Some(e.as_str()),
            None => None,
        };
        assert(opt_str_view(ext_ref) == spec_pool_key(file_name@, is_dir));
        let ghost start = old(self).drawn_bodies().len();
        let ghost key = spec_pool_key(file_name@, is_dir);
        let mut attempt: u32 = 0;
        while attempt < GENERATE_ATTEMPTS
            invariant
                self.same_settings(*old(self)),
                self.used_names() == old(self).used_names(),
                opt_str_view(ext_ref) == key,
                key == spec_pool_key(file_name@, is_dir),
                start == old(self).drawn_bodies().len(),
                self.drawn_bodies().len() >= start,
                self.drawn_bodies().subrange(0, start as int) == old(self).drawn_bodies(),
                attempt == 0 ==> self.drawn_bodies() == old(self).drawn_bodies(),
                attempt > 0 ==> self.drawn_bodies().len() > start,
                attempt > 0 ==> is_body(self.drawn_bodies()[start as int], old(self).length_view()),
                attempt > 0 ==> old(self).used_names().contains(
                    spec_assemble(old(self).prefix_view(), self.drawn_bodies()[start as int], old(self).suffix_view(), key),
                ),
            decreases GENERATE_ATTEMPTS - attempt,
        {
            let ghost before = self.drawn_bodies();
            let body = self.draw_body();
            assert(self.drawn_bodies().subrange(0, start as int) =~= before.subrange(0, start as int));
            assert(self.drawn_bodies()[start as int] == if attempt == 0 {
                body@
            } else {
                before[start as int]
            });
            let candidate = assemble_name(
                self.prefix.as_str(),
                body.as_str(),
                self.suffix.as_str(),
                ext_ref,
            );
            if !self.contains(&candidate) {
                proof {
                    lemma_assembled_is_candidate(
                        self.prefix@,
                        body@,
                        self.suffix@,
                        self.length as nat,
                        opt_str_view(ext_ref),
                    );
                }
                self.remember(candidate.clone());
                return Some(candidate);
            }
            attempt += 1;
        }
        assert(GENERATE_ATTEMPTS == 1048576u32) by (bit_vector);
        assert(attempt > 0);
        self.first_free(ext_ref)
    }

    /// Whether the item `file_name` already has a name of this generator's pattern.
    pub open spec fn spec_matches(self, file_name: Seq<char>, is_dir: bool) -> bool {
        match spec_bare_name(file_name, is_dir) {
            Some(b) => is_candidate(self.prefix_view(), self.suffix_view(), self.length_view(), None, b),
            None => false,
        }
    }

    /// True if `file_name` already matches the random pattern of this generator
    /// (prefix + alnum(LENGTH) + suffix [+ extension]).
    pub fn matches_pattern(&self, file_name: &str, is_dir: bool) -> (r: bool)
        ensures
            r == self.spec_matches(file_name@, is_dir),
    {
        let bare = match bare_name(file_name, is_dir) {
            Some(b) => b,
            None => {
                return false;
            },
        };
        let p = chars_of(self.prefix.as_str());
        let s = chars_of(self.suffix.as_str());
        let ghost len = self.length as nat;
        if bare.len() < p.len() {
            return false;
        }
        let rest = bare.len() - p.len();
        if rest < s.len() {
            return false;
        }
        if rest - s.len() != self.length {
            return false;
        }
        let body_end = p.len() + self.length;
        if !range_equals(&bare, 0, p.len(), &p) {
            assert(bare@.subrange(0, p@.len() as int) != self.prefix@);
            assert(!is_candidate(self.prefix@, self.suffix@, len, None, bare@)) by {
                if is_candidate(self.prefix@, self.suffix@, len, None, bare@) {
                    assert(bare@.subrange(0, p@.len() as int) =~= self.prefix@);
                }
            }
            return false;
        }
        if !range_equals(&bare, body_end, bare.len(), &s) {
            assert(!is_candidate(self.prefix@, self.suffix@, len, None, bare@)) by {
                if is_candidate(self.prefix@, self.suffix@, len, None, bare@) {
                    assert(bare@.subrange(body_end as int, bare@.len() as int) =~= self.suffix@);
                }
            }
            return false;
        }
        let mut i = p.len();
        while i < body_end
            invariant
                p@.len() <= i <= body_end <= bare@.len(),
                p@ == self.prefix@,
                body_end == p@.len() + self.length,
                spec_bare_name(file_name@, is_dir) == Some(bare@),
                forall|k: int| p@.len() <= k < i ==> is_name_char(#[trigger] bare@[k]),
            decreases body_end - i,
        {
            if !is_name_char_exec(bare[i]) {
                let ghost body = bare@.subrange(p@.len() as int, body_end as int);
                assert(body[i - p@.len()] == bare@[i as int]);
                return false;
            }
            i += 1;
        }
        let ghost body = bare@.subrange(p@.len() as int, body_end as int);
        assert forall|k: int| 0 <= k < body.len() implies #[trigger] is_name_char(body[k]) by {
            assert(body[k] == bare@[p@.len() + k]);
        }
        assert(bare@ =~= spec_assemble(self.prefix@, body, self.suffix@, None));
        true
    }

    /// Generate a unique random name for the given file name / directory.
    pub fn generate(&mut self, file_name: &str, is_dir: bool) -> (r: String)
        requires
            old(self).has_free_name(spec_pool_key(file_name@, is_dir)),
        ensures
            final(self).same_settings(*old(self)),
            old(self).candidates_for(spec_pool_key(file_name@, is_dir)).contains(r@),
            !old(self).used_names().contains(r@),
            final(self).used_names() == old(self).used_names().insert(r@),
            final(self).drawn_bodies().len() > old(self).drawn_bodies().len(),
            final(self).drawn_bodies().subrange(0, old(self).drawn_bodies().len() as int)
                == old(self).drawn_bodies(),
            ({
                let b = final(self).drawn_bodies()[old(self).drawn_bodies().len() as int];
                let n = spec_assemble(
                    old(self).prefix_view(),
                    b,
                    old(self).suffix_view(),
                    spec_pool_key(file_name@, is_dir),
                );
                &&& is_body(b, old(self).length_view())
                &&& !old(self).used_names().contains(n) ==> r@ == n
            }),
    {
        match self.try_generate(file_name, is_dir) {
            Some(n) => n,
            None => {
                assert(false);
                String::new()
            },
        }
    }
}

/// Along a run of calls on one generator, where each call (`reserve`,
/// `generate`, `try_generate`) only adds remembered names, a name remembered
/// at one point is remembered at every later one; as `generate` never
/// returns a remembered name, a name reserved or generated earlier is never
/// generated again.
pub proof fn lemma_remembered_names_persist(states: Seq<NameGenerator>, i: int, j: int, name: Seq<char>)
    requires
        forall|t: int| 0 <= t < states.len() - 1 ==> (#[trigger] states[t].used_names()).subset_of(
            states[t + 1].used_names(),
        ),
        0 <= i <= j < states.len(),
        states[i].used_names().contains(name),
    ensures
        states[j].used_names().contains(name),
    decreases j - i,
{
    if i < j {
        assert(states[i].used_names().subset_of(states[i + 1].used_names()));
        lemma_remembered_names_persist(states, i + 1, j, name);
    }
}

/// An item name matches a generator's pattern exactly when its bare name
/// (the whole name for a directory, the name without its extension for a
/// file) is the prefix, then `length` ASCII letters or digits, then the
/// suffix. A stem with any other character there, such as `_` in
/// `IMG_2020`, does not match.
pub proof fn lemma_matches_iff_alnum_body(g: NameGenerator, file_name: Seq<char>, is_dir: bool)
    ensures
        g.spec_matches(file_name, is_dir) <==> (spec_bare_name(file_name, is_dir) matches Some(b) && {
            let p = g.prefix_view();
            let s = g.suffix_view();
            let len = g.length_view();
            &&& b.len() == p.len() + len + s.len()
            &&& b.subrange(0, p.len() as int) == p
            &&& b.subrange((p.len() + len) as int, b.len() as int) == s
            &&& forall|i: int| p.len() <= i < p.len() + len ==> {
                ||| (97 <= #[trigger] b[i] as u32 && b[i] as u32 <= 122)
                ||| (65 <= b[i] as u32 && b[i] as u32 <= 90)
                ||| (48 <= b[i] as u32 && b[i] as u32 <= 57)
            }
        }),
{
    let p = g.prefix_view();
    let s = g.suffix_view();
    let len = g.length_view();
    if let Some(b) = spec_bare_name(file_name, is_dir) {
        let body = b.subrange(p.len() as int, (p.len() + len) as int);
        if g.spec_matches(file_name, is_dir) {
            assert(b == p + body + s + ext_text(None));
            assert(b.subrange(0, p.len() as int) =~= p);
            assert(b.subrange((p.len() + len) as int, b.len() as int) =~= s);
            assert forall|i: int| p.len() <= i < p.len() + len implies is_name_char(#[trigger] b[i]) by {
                assert(b[i] == body[i - p.len()]);
            }
        }
        if b.len() == p.len() + len + s.len() && b.subrange(0, p.len() as int) == p
            && b.subrange((p.len() + len) as int, b.len() as int) == s && (forall|i: int|
            p.len() <= i < p.len() + len ==> is_name_char(#[trigger] b[i])) {
            assert forall|i: int| 0 <= i < body.len() implies #[trigger] is_name_char(body[i]) by {
                assert(body[i] == b[p.len() + i]);
            }
            assert(b =~= p + body + s + ext_text(None));
        }
    }
}

/// The name a generator makes from a body determines the body: bodies of one
/// length that differ give different names for the same item. So, as the
/// first body drawn from the random source becomes the name whenever that
/// name is free, generators whose first draws differ give different names.
pub proof fn lemma_names_follow_draws(
    prefix: Seq<char>,
    suffix: Seq<char>,
    ext: Option<Seq<char>>,
    b1: Seq<char>,
    b2: Seq<char>,
)
    requires
        b1.len() == b2.len(),
        b1 != b2,
    ensures
        spec_assemble(prefix, b1, suffix, ext) != spec_assemble(prefix, b2, suffix, ext),
{
    let n1 = spec_assemble(prefix, b1, suffix, ext);
    let n2 = spec_assemble(prefix, b2, suffix, ext);
    assert(n1.subrange(prefix.len() as int, (prefix.len() + b1.len()) as int) =~= b1);
    assert(n2.subrange(prefix.len() as int, (prefix.len() + b2.len()) as int) =~= b2);
}

/// The pool an item's generated name comes from: the extension (with its dot)
/// for a file, none for a directory.
pub open spec fn spec_pool_key(file_name: Seq<char>, is_dir: bool) -> Option<Seq<char>> {
    if is_dir {
        None
    } else {
        spec_extension_with_dot(file_name)
    }
}


/// A body holds neither `/` nor `.`.
proof fn lemma_body_free(b: Seq<char>, len: nat)
    requires
        is_body(b, len),
    ensures
        free_of(b, '/'),
        free_of(b, '.'),
{
    assert forall|i: int| 0 <= i < b.len() implies b[i] != '/' && b[i] != '.' by {
        assert(is_name_char(b[i]));
    }
}

proof fn lemma_concat_free(a: Seq<char>, b: Seq<char>, c: char)
    requires
        free_of(a, c),
        free_of(b, c),
    ensures
        free_of(a + b, c),
{
    assert forall|i: int| 0 <= i < (a + b).len() implies (a + b)[i] != c by {
        if i < a.len() {
            assert((a + b)[i] == a[i]);
        } else {
            assert((a + b)[i] == b[i - a.len()]);
        }
    }
}

/// A name this generator gives an item matches its pattern, so that a later
/// run (without `force`) keeps it: when neither the prefix nor the suffix
/// holds a `/` or a `.`, and the pattern is not empty.
pub proof fn lemma_generated_name_matches_pattern(
    g: NameGenerator,
    file_name: Seq<char>,
    is_dir: bool,
    name: Seq<char>,
)
    requires
        g.candidates_for(spec_pool_key(file_name, is_dir)).contains(name),
        free_of(g.prefix_view(), '/'),
        free_of(g.prefix_view(), '.'),
        free_of(g.suffix_view(), '/'),
        free_of(g.suffix_view(), '.'),
        g.prefix_view().len() + g.length_view() + g.suffix_view().len() > 0,
    ensures
        g.spec_matches(name, is_dir),
{
    let k = spec_pool_key(file_name, is_dir);
    lemma_pool_key_dotted(file_name, is_dir);
    lemma_candidate_parts(g.prefix_view(), g.suffix_view(), g.length_view(), k, name);
}


/// An extension with its dot, as `spec_extension_with_dot` gives one: a
/// leading `.`, then neither `/` nor `.`.
pub open spec fn dotted_extension(x: Seq<char>) -> bool {
    &&& x.len() > 0
    &&& x[0] == '.'
    &&& free_of(x.drop_first(), '.')
    &&& free_of(x, '/')
}

/// Pool keys of files are none or dotted extensions.
pub proof fn lemma_pool_key_dotted(file_name: Seq<char>, is_dir: bool)
    ensures
        spec_pool_key(file_name, is_dir) matches Some(x) ==> dotted_extension(x),
{
    if !is_dir {
        lemma_extension_free(file_name);
        if let Some(e) = extension_of(file_name) {
            let x = seq!['.'] + e;
            assert(x.drop_first() =~= e);
            assert forall|i: int| 0 <= i < x.len() implies x[i] != '/' by {
                if i > 0 {
                    assert(x[i] == e[i - 1]);
                }
            }
        }
    }
}

/// When neither the prefix nor the suffix holds a `/` or a `.` and the
/// pattern is not empty, a candidate of pool `k` is a file name whose pool
/// is `k`; a candidate of an extension's pool holds a `.`.
pub proof fn lemma_candidate_pool(
    prefix: Seq<char>,
    suffix: Seq<char>,
    length: nat,
    k: Option<Seq<char>>,
    name: Seq<char>,
)
    requires
        is_candidate(prefix, suffix, length, k, name),
        free_of(prefix, '/'),
        free_of(prefix, '.'),
        free_of(suffix, '/'),
        free_of(suffix, '.'),
        prefix.len() + length + suffix.len() > 0,
        k matches Some(x) ==> dotted_extension(x),
    ensures
        spec_extension_with_dot(name) == k,
        k is Some ==> !free_of(name, '.'),
{
    lemma_candidate_parts(prefix, suffix, length, k, name);
}

/// A candidate of pool `k`, under the conditions of `lemma_candidate_pool`,
/// splits into its stem (prefix, body, suffix), which is a candidate of no
/// extension and its bare name as a file, and the extension `k`.
proof fn lemma_candidate_parts(
    prefix: Seq<char>,
    suffix: Seq<char>,
    length: nat,
    k: Option<Seq<char>>,
    name: Seq<char>,
)
    requires
        is_candidate(prefix, suffix, length, k, name),
        free_of(prefix, '/'),
        free_of(prefix, '.'),
        free_of(suffix, '/'),
        free_of(suffix, '.'),
        prefix.len() + length + suffix.len() > 0,
        k matches Some(x) ==> dotted_extension(x),
    ensures
        ({
            let stem = name.subrange(0, (prefix.len() + length + suffix.len()) as int);
            &&& name == stem + ext_text(k)
            &&& is_candidate(prefix, suffix, length, None, stem)
            &&& file_stem_of(name) == Some(stem)
        }),
        spec_extension_with_dot(name) == k,
        k is Some ==> !free_of(name, '.'),
{
    let body = name.subrange(prefix.len() as int, (prefix.len() + length) as int);
    let stem = prefix + body + suffix;
    assert(name == stem + ext_text(k));
    assert(name.subrange(0, stem.len() as int) =~= stem);
    lemma_body_free(body, length);
    lemma_concat_free(prefix, body, '/');
    lemma_concat_free(prefix, body, '.');
    lemma_concat_free(prefix + body, suffix, '/');
    lemma_concat_free(prefix + body, suffix, '.');
    assert(stem.subrange(prefix.len() as int, (prefix.len() + length) as int) =~= body);
    assert(is_candidate(prefix, suffix, length, None, stem)) by {
        assert(stem =~= spec_assemble(prefix, body, suffix, None));
    }
    if let Some(x) = k {
        lemma_concat_free(stem, x, '/');
        assert(name[stem.len() as int] == '.');
        assert(name != seq!['.']);
        assert(name != seq!['.', '.']) by {
            if name == seq!['.', '.'] {
                assert(stem.len() == 1);
                assert(name[0] == stem[0]);
            }
        }
        lemma_file_name_whole(name);
        assert forall|j: int| stem.len() < j < name.len() implies name[j] != '.' by {
            assert(name[j] == x.drop_first()[j - stem.len() - 1]);
        }
        lemma_last_dot_at(name, stem.len() as int);
        assert(name.subrange(stem.len() + 1 as int, name.len() as int) =~= x.drop_first());
        assert(seq!['.'] + x.drop_first() =~= x);
    } else {
        assert(name =~= stem);
        assert(stem[0] != '.');
        assert(name != seq!['.'] && name != seq!['.', '.']) by {
            if name == seq!['.'] || name == seq!['.', '.'] {
                assert(name[0] == '.');
            }
        }
        lemma_file_name_whole(name);
        lemma_last_dot_at(name, -1);
    }
}

} // verus!
