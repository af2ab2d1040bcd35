//! Planning the renames: which items keep their name, which get a new one,
//! and whether the pattern leaves enough names for all of them.
use vstd::prelude::*;

use crate::names::{
    lemma_candidate_pool, lemma_pool_key_dotted, lemma_name_space_strictly_grows,
    extension_with_dot, lemma_candidates_count, lemma_candidates_disjoint, lemma_pool_key_valid,
    name_space, names_view, valid_key, spec_max_names, spec_pool_key, max_names, NameGenerator,
};
use crate::order::{listing_order, sort_paths};
use crate::paths::{
    has_prefix, is_hidden, path_text, paths_view, relative_text, spec_basename, spec_is_hidden,
    spec_parent, spec_relative, ItemPath,
};
use vstd::relations::sorted_by;
use crate::text::{append_str, chars_of, push_char, debug_text, decimal, decimal_text, debug_str, opt_view};

verus! {

/// An item to consider: its path and whether it is a directory.
pub type Entry = (Seq<Seq<char>>, bool);

/// The items of a run: the files, then the directories.
pub open spec fn entries(files: Seq<ItemPath>, dirs: Seq<ItemPath>) -> Seq<Entry> {
    paths_view(files).map_values(|p: Seq<Seq<char>>| (p, false)) + paths_view(dirs).map_values(
        |p: Seq<Seq<char>>| (p, true),
    )
}

/// The name of an item.
pub open spec fn entry_name(e: Entry) -> Seq<char> {
    spec_basename(e.0)
}

/// The pool an item's new name is drawn from.
pub open spec fn entry_key(e: Entry) -> Option<Seq<char>> {
    spec_pool_key(entry_name(e), e.1)
}

/// Whether an item gets a new name: always with `force`, else when its name
/// does not already match the generator's pattern.
pub open spec fn needs_name(g: NameGenerator, force: bool, e: Entry) -> bool {
    force || !g.spec_matches(entry_name(e), e.1)
}

/// How many elements of `s` satisfy `f`.
pub open spec fn count_where<A>(s: Seq<A>, f: spec_fn(A) -> bool) -> nat
    decreases s.len(),
{
    if s.len() == 0 {
        0
    } else {
        count_where(s.drop_last(), f) + if f(s.last()) {
            1nat
        } else {
            0nat
        }
    }
}

/// Items of pool `k`: each reserves a name.
pub open spec fn pool_orig(es: Seq<Entry>, k: Option<Seq<char>>) -> nat {
    count_where(es, |e: Entry| entry_key(e) == k)
}

/// Items of pool `k` that get a new name.
pub open spec fn pool_gen(g: NameGenerator, force: bool, es: Seq<Entry>, k: Option<Seq<char>>) -> nat {
    count_where(es, |e: Entry| entry_key(e) == k && needs_name(g, force, e))
}

/// Pool `k` must generate names but needs more distinct names than `max_names` allows.
pub open spec fn pool_overflows(
    g: NameGenerator,
    force: bool,
    es: Seq<Entry>,
    k: Option<Seq<char>>,
) -> bool {
    &&& pool_gen(g, force, es, k) > 0
    &&& spec_max_names(g.length_view() as usize) matches Some(limit)
    &&& pool_orig(es, k) + pool_gen(g, force, es, k) > limit
}

/// Some pool of the run overflows.
pub open spec fn infeasible(g: NameGenerator, force: bool, es: Seq<Entry>) -> bool {
    exists|i: int| 0 <= i < es.len() && pool_overflows(g, force, es, #[trigger] entry_key(es[i]))
}

proof fn lemma_count_where_push<A>(s: Seq<A>, x: A, f: spec_fn(A) -> bool)
    ensures
        count_where(s.push(x), f) == count_where(s, f) + if f(x) {
            1nat
        } else {
            0nat
        },
{
    assert(s.push(x).drop_last() =~= s);
}

proof fn lemma_count_where_bound<A>(s: Seq<A>, f: spec_fn(A) -> bool)
    ensures
        count_where(s, f) <= s.len(),
    decreases s.len(),
{
    if s.len() > 0 {
        lemma_count_where_bound(s.drop_last(), f);
    }
}

proof fn lemma_count_where_positive<A>(s: Seq<A>, f: spec_fn(A) -> bool)
    requires
        count_where(s, f) > 0,
    ensures
        exists|j: int| 0 <= j < s.len() && f(#[trigger] s[j]),
    decreases s.len(),
{
    if !f(s.last()) {
        lemma_count_where_positive(s.drop_last(), f);
        let j = choose|j: int| 0 <= j < s.drop_last().len() && f(#[trigger] s.drop_last()[j]);
        assert(s[j] == s.drop_last()[j]);
    } else {
        assert(f(s[s.len() - 1]));
    }
}

proof fn lemma_count_where_concat<A>(a: Seq<A>, b: Seq<A>, f: spec_fn(A) -> bool)
    ensures
        count_where(a + b, f) == count_where(a, f) + count_where(b, f),
    decreases b.len(),
{
    if b.len() == 0 {
        assert(a + b =~= a);
    } else {
        lemma_count_where_concat(a, b.drop_last(), f);
        assert((a + b).drop_last() =~= a + b.drop_last());
        assert((a + b).last() == b.last());
    }
}

proof fn lemma_count_where_weaker<A>(s: Seq<A>, f: spec_fn(A) -> bool, h: spec_fn(A) -> bool)
    requires
        forall|x: A| #[trigger] f(x) ==> h(x),
    ensures
        count_where(s, f) <= count_where(s, h),
    decreases s.len(),
{
    if s.len() > 0 {
        lemma_count_where_weaker(s.drop_last(), f, h);
    }
}

/// `--force` never turns a refused run into an accepted one: where the items
/// that need a new name already overflow a pool, renaming every item of that
/// pool overflows it too.
pub proof fn lemma_force_keeps_infeasible(g: NameGenerator, files: Seq<ItemPath>, dirs: Seq<ItemPath>)
    requires
        infeasible(g, false, entries(files, dirs)),
    ensures
        infeasible(g, true, entries(files, dirs)),
{
    let es = entries(files, dirs);
    let i = choose|i: int| 0 <= i < es.len() && pool_overflows(g, false, es, #[trigger] entry_key(es[i]));
    let k = entry_key(es[i]);
    lemma_count_where_weaker(
        es,
        |e: Entry| entry_key(e) == k && needs_name(g, false, e),
        |e: Entry| entry_key(e) == k && needs_name(g, true, e),
    );
    assert(pool_overflows(g, true, es, entry_key(es[i])));
}

/// More items never turn a refused run into an accepted one: adding files or
/// directories only adds to the counts of each pool.
pub proof fn lemma_more_items_keep_infeasible(
    g: NameGenerator,
    force: bool,
    files: Seq<ItemPath>,
    dirs: Seq<ItemPath>,
    more_files: Seq<ItemPath>,
    more_dirs: Seq<ItemPath>,
)
    requires
        infeasible(g, force, entries(files, dirs)),
    ensures
        infeasible(g, force, entries(files + more_files, dirs + more_dirs)),
{
    let tag_file = |p: Seq<Seq<char>>| (p, false);
    let tag_dir = |p: Seq<Seq<char>>| (p, true);
    let f0 = paths_view(files).map_values(tag_file);
    let f1 = paths_view(more_files).map_values(tag_file);
    let d0 = paths_view(dirs).map_values(tag_dir);
    let d1 = paths_view(more_dirs).map_values(tag_dir);
    let es = entries(files, dirs);
    let es2 = entries(files + more_files, dirs + more_dirs);
    assert(es =~= f0 + d0);
    assert(es2 =~= (f0 + f1) + (d0 + d1));
    let i = choose|i: int| 0 <= i < es.len() && pool_overflows(g, force, es, #[trigger] entry_key(es[i]));
    let k = entry_key(es[i]);
    let orig = |e: Entry| entry_key(e) == k;
    let gen = |e: Entry| entry_key(e) == k && needs_name(g, force, e);
    lemma_count_where_concat(f0, d0, orig);
    lemma_count_where_concat(f0, d0, gen);
    lemma_count_where_concat(f0 + f1, d0 + d1, orig);
    lemma_count_where_concat(f0 + f1, d0 + d1, gen);
    lemma_count_where_concat(f0, f1, orig);
    lemma_count_where_concat(f0, f1, gen);
    lemma_count_where_concat(d0, d1, orig);
    lemma_count_where_concat(d0, d1, gen);
    assert(pool_orig(es2, k) >= pool_orig(es, k));
    assert(pool_gen(g, force, es2, k) >= pool_gen(g, force, es, k));
    let j = if i < f0.len() {
        i
    } else {
        i + f1.len()
    };
    assert(es2[j] == es[i]);
    assert(pool_overflows(g, force, es2, entry_key(es2[j])));
}

/// Per-pool counts of items that reserve a body (`orig`) and items that need a
/// newly generated body (`to_generate`).
pub struct Pool {
    pub key: Option<String>,
    pub orig: u64,
    pub to_generate: u64,
}

/// The key of each pool of a table.
pub open spec fn pool_keys(pools: Seq<Pool>) -> Seq<Option<Seq<char>>> {
    pools.map_values(|p: Pool| opt_view(p.key))
}

/// The table `pools` counts the items `es`: one pool per key, with its counts.
pub open spec fn table_counts(pools: Seq<Pool>, g: NameGenerator, force: bool, es: Seq<Entry>) -> bool {
    &&& pool_keys(pools).no_duplicates()
    &&& forall|a: int|
        0 <= a < pools.len() ==> {
            &&& #[trigger] pools[a].orig == pool_orig(es, opt_view(pools[a].key))
            &&& pools[a].to_generate == pool_gen(g, force, es, opt_view(pools[a].key))
        }
    &&& forall|j: int| 0 <= j < es.len() ==> pool_keys(pools).contains(#[trigger] entry_key(es[j]))
}

/// The pool of an item.
pub fn pool_key(name: &str, is_dir: bool) -> (r: Option<String>)
    ensures
        opt_view(r) == spec_pool_key(name@, is_dir),
{
    if is_dir {
        None
    } else {
        extension_with_dot(name)
    }
}

/// Whether two pool keys are equal.
fn same_key(a: &Option<String>, b: &Option<String>) -> (r: bool)
    ensures
        r == (opt_view(*a) == opt_view(*b)),
{
    match (a, b) {
        (Some(x), Some(y)) => *x == *y,
        (None, None) => true,
        _ => false,
    }
}

/// Index of the pool of key `key`, if the table has one.
fn find_pool(pools: &Vec<Pool>, key: &Option<String>) -> (r: Option<usize>)
    ensures
        match r {
            Some(a) => a < pools@.len() && opt_view(pools@[a as int].key) == opt_view(*key),
            None => forall|b: int| 0 <= b < pools@.len() ==> opt_view(#[trigger] pools@[b].key) != opt_view(*key),
        },
{
    let mut a: usize = 0;
    while a < pools.len()
        invariant
            a <= pools@.len(),
            forall|b: int| 0 <= b < a ==> opt_view(#[trigger] pools@[b].key) != opt_view(*key),
        decreases pools@.len() - a,
    {
        if same_key(&pools[a].key, key) {
            return Some(a);
        }
        a += 1;
    }
    None
}

/// Counts one more item, `e`, in the table.
#[verifier::spinoff_prover]
fn tally(
    pools: &mut Vec<Pool>,
    key: Option<String>,
    needs: bool,
    Ghost(g): Ghost<NameGenerator>,
    Ghost(force): Ghost<bool>,
    Ghost(es): Ghost<Seq<Entry>>,
    Ghost(e): Ghost<Entry>,
)
    requires
        table_counts(old(pools)@, g, force, es),
        opt_view(key) == entry_key(e),
        needs == needs_name(g, force, e),
        es.len() < u64::MAX,
    ensures
        table_counts(final(pools)@, g, force, es.push(e)),
{
    let ghost es2 = es.push(e);
    let ghost fo = |x: Entry| entry_key(x) == opt_view(key);
    let found = find_pool(pools, &key);
    let a: usize = match found {
        Some(a) => a,
        None => pools.len(),
    };
    assert forall|b: int| 0 <= b < pools@.len() implies {
        &&& pool_orig(es2, opt_view(#[trigger] pools@[b].key)) == pool_orig(es, opt_view(pools@[b].key)) + if opt_view(pools@[b].key) == opt_view(key) { 1nat } else { 0nat }
        &&& pool_gen(g, force, es2, opt_view(pools@[b].key)) == pool_gen(g, force, es, opt_view(pools@[b].key)) + if opt_view(pools@[b].key) == opt_view(key) && needs { 1nat } else { 0nat }
    } by {
        let k = opt_view(pools@[b].key);
        lemma_count_where_push(es, e, |x: Entry| entry_key(x) == k);
        lemma_count_where_push(es, e, |x: Entry| entry_key(x) == k && needs_name(g, force, x));
    }
    if a < pools.len() {
        let ghost k = opt_view(key);
        proof {
            lemma_count_where_bound(es, |x: Entry| entry_key(x) == k);
            lemma_count_where_bound(es, |x: Entry| entry_key(x) == k && needs_name(g, force, x));
        }
        assert(opt_view(pools@[a as int].key) == k);
        assert(pools@[a as int].orig == pool_orig(es, opt_view(pools@[a as int].key)));
        let old_orig = pools[a].orig;
        let old_gen = pools[a].to_generate;
        let old_key = pools[a].key.clone();
        let new_pool = Pool {
            key: old_key,
            orig: old_orig + 1,
            to_generate: if needs { old_gen + 1 } else { old_gen },
        };
        pools.set(a, new_pool);
        proof {
            assert(pool_keys(pools@) =~= pool_keys(old(pools)@));
            assert forall|j: int| 0 <= j < es2.len() implies pool_keys(pools@).contains(#[trigger] entry_key(es2[j])) by {
                if j < es.len() {
                    assert(es2[j] == es[j]);
                } else {
                    assert(pool_keys(pools@)[a as int] == entry_key(e));
                }
            }
            assert forall|b: int| 0 <= b < pools@.len() implies {
                &&& #[trigger] pools@[b].orig == pool_orig(es2, opt_view(pools@[b].key))
                &&& pools@[b].to_generate == pool_gen(g, force, es2, opt_view(pools@[b].key))
            } by {
                if b != a {
                    assert(pool_keys(old(pools)@)[b] != pool_keys(old(pools)@)[a as int]);
                }
            }
        }
    } else {
        let ghost k = opt_view(key);
        let new_pool = Pool {
            key,
            orig: 1,
            to_generate: if needs { 1 } else { 0 },
        };
        pools.push(new_pool);
        proof {
            assert(pool_keys(pools@) =~= pool_keys(old(pools)@).push(k));
            assert(!pool_keys(old(pools)@).contains(k)) by {
                if pool_keys(old(pools)@).contains(k) {
                    let b = choose|b: int| 0 <= b < pool_keys(old(pools)@).len() && pool_keys(old(pools)@)[b] == k;
                    assert(opt_view(old(pools)@[b].key) == k);
                }
            }
            assert(pool_orig(es, k) == 0) by {
                if pool_orig(es, k) > 0 {
                    lemma_count_where_positive(es, |x: Entry| entry_key(x) == k);
                    let j = choose|j: int| 0 <= j < es.len() && entry_key(#[trigger] es[j]) == k;
                    assert(pool_keys(old(pools)@).contains(entry_key(es[j])));
                }
            }
            assert(pool_gen(g, force, es, k) == 0) by {
                if pool_gen(g, force, es, k) > 0 {
                    lemma_count_where_positive(es, |x: Entry| entry_key(x) == k && needs_name(g, force, x));
                    let j = choose|j: int| 0 <= j < es.len() && (entry_key(#[trigger] es[j]) == k && needs_name(g, force, es[j]));
                    assert(pool_keys(old(pools)@).contains(entry_key(es[j])));
                }
            }
            lemma_count_where_push(es, e, |x: Entry| entry_key(x) == k);
            lemma_count_where_push(es, e, |x: Entry| entry_key(x) == k && needs_name(g, force, x));
            assert forall|j: int| 0 <= j < es2.len() implies pool_keys(pools@).contains(#[trigger] entry_key(es2[j])) by {
                if j < es.len() {
                    assert(es2[j] == es[j]);
                    let b = choose|b: int| 0 <= b < pool_keys(old(pools)@).len() && pool_keys(old(pools)@)[b] == entry_key(es[j]);
                    assert(pool_keys(pools@)[b] == entry_key(es[j]));
                } else {
                    assert(pool_keys(pools@)[pools@.len() - 1] == entry_key(e));
                }
            }
            assert forall|b: int| 0 <= b < pools@.len() implies {
                &&& #[trigger] pools@[b].orig == pool_orig(es2, opt_view(pools@[b].key))
                &&& pools@[b].to_generate == pool_gen(g, force, es2, opt_view(pools@[b].key))
            } by {
                if b < pools@.len() - 1 {
                    assert(pools@[b] == old(pools)@[b]);
                    let kb = opt_view(pools@[b].key);
                    assert(pool_keys(old(pools)@)[b] == kb);
                    assert(old(pools)@[b].orig == pool_orig(es, opt_view(old(pools)@[b].key)));
                    assert(kb != k);
                    lemma_count_where_push(es, e, |x: Entry| entry_key(x) == kb);
                    lemma_count_where_push(es, e, |x: Entry| entry_key(x) == kb && needs_name(g, force, x));
                } else {
                    let kb = opt_view(pools@[b].key);
                    assert(kb == k);
                    lemma_count_where_push(es, e, |x: Entry| entry_key(x) == kb);
                    lemma_count_where_push(es, e, |x: Entry| entry_key(x) == kb && needs_name(g, force, x));
                }
            }
        }
    }
}


/// Why a plan could not be made.
pub enum PlanError {
    /// A pool that must generate names needs more distinct names than
    /// `62^length` allows: `existing + to_rename > limit`.
    NotEnoughNames {
        length: usize,
        pool: Option<String>,
        existing: u64,
        to_rename: u64,
        limit: u64,
    },
    /// Every name of the pool's pattern is already taken, so no fresh name can
    /// be drawn for one of its items.
    NamesExhausted { pool: Option<String> },
}

proof fn lemma_entries(files: Seq<ItemPath>, dirs: Seq<ItemPath>)
    ensures
        entries(files, dirs).len() == files.len() + dirs.len(),
        forall|i: int| 0 <= i < files.len() ==> #[trigger] entries(files, dirs)[i] == (files[i]@, false),
        forall|j: int| 0 <= j < dirs.len() ==> #[trigger] entries(files, dirs)[files.len() + j] == (dirs[j]@, true),
{
}

/// Refuse to run when a pool that must generate names could exhaust its space.
pub fn check_feasibility(
    generator: &NameGenerator,
    files: &[ItemPath],
    dirs: &[ItemPath],
    force: bool,
) -> (r: Result<(), PlanError>)
    requires
        files@.len() + dirs@.len() <= u64::MAX / 4,
    ensures
        match r {
            Ok(()) => !infeasible(*generator, force, entries(files@, dirs@)),
            Err(PlanError::NotEnoughNames { length, pool, existing, to_rename, limit }) => {
                let es = entries(files@, dirs@);
                &&& infeasible(*generator, force, es)
                &&& length == generator.length_view()
                &&& pool_overflows(*generator, force, es, opt_view(pool))
                &&& existing == pool_orig(es, opt_view(pool))
                &&& to_rename == pool_gen(*generator, force, es, opt_view(pool))
                &&& spec_max_names(length) == Some(limit)
            },
            Err(PlanError::NamesExhausted { .. }) => false,
        },
{
    let ghost g = *generator;
    let ghost es = entries(files@, dirs@);
    proof {
        lemma_entries(files@, dirs@);
    }
    let length = generator.length();
    let limit = match max_names(length) {
        Some(limit) => limit,
        None => {
            return Ok(());
        },
    };
    let mut pools: Vec<Pool> = Vec::new();
    assert(es.take(0) =~= Seq::<Entry>::empty());
    let mut i: usize = 0;
    while i < files.len()
        invariant
            i <= files@.len(),
            es == entries(files@, dirs@),
            es.len() == files@.len() + dirs@.len(),
            files@.len() + dirs@.len() <= u64::MAX / 4,
            forall|k: int| 0 <= k < files@.len() ==> #[trigger] es[k] == (files@[k]@, false),
            table_counts(pools@, g, force, es.take(i as int)),
            g == *generator,
        decreases files@.len() - i,
    {
        let name = files[i].basename();
        let needs = force || !generator.matches_pattern(name, false);
        let key = pool_key(name, false);
        assert(es.take(i + 1) =~= es.take(i as int).push(es[i as int]));
        tally(&mut pools, key, needs, Ghost(g), Ghost(force), Ghost(es.take(i as int)), Ghost(es[i as int]));
        i += 1;
    }
    let mut j: usize = 0;
    while j < dirs.len()
        invariant
            j <= dirs@.len(),
            es == entries(files@, dirs@),
            es.len() == files@.len() + dirs@.len(),
            files@.len() + dirs@.len() <= u64::MAX / 4,
            forall|k: int| 0 <= k < dirs@.len() ==> #[trigger] es[files@.len() + k] == (dirs@[k]@, true),
            table_counts(pools@, g, force, es.take(files@.len() + j)),
            g == *generator,
        decreases dirs@.len() - j,
    {
        let name = dirs[j].basename();
        let needs = force || !generator.matches_pattern(name, true);
        let key = pool_key(name, true);
        let ghost at = files@.len() + j;
        assert(es.take(at + 1) =~= es.take(at).push(es[at]));
        tally(&mut pools, key, needs, Ghost(g), Ghost(force), Ghost(es.take(at)), Ghost(es[at]));
        j += 1;
    }
    assert(es.take(es.len() as int) =~= es);
    let mut a: usize = 0;
    while a < pools.len()
        invariant
            a <= pools@.len(),
            table_counts(pools@, g, force, es),
            es.len() <= u64::MAX / 4,
            spec_max_names(length) == Some(limit),
            length == g.length_view(),
            g == *generator,
            es == entries(files@, dirs@),
            forall|b: int| 0 <= b < a ==> !pool_overflows(g, force, es, opt_view(#[trigger] pools@[b].key)),
        decreases pools@.len() - a,
    {
        let ghost k = opt_view(pools@[a as int].key);
        assert(pools@[a as int].orig == pool_orig(es, k));
        proof {
            lemma_count_where_bound(es, |x: Entry| entry_key(x) == k);
            lemma_count_where_bound(es, |x: Entry| entry_key(x) == k && needs_name(g, force, x));
        }
        let orig = pools[a].orig;
        let to_generate = pools[a].to_generate;
        if to_generate > 0 && orig + to_generate > limit {
            proof {
                lemma_count_where_positive(es, |x: Entry| entry_key(x) == k && needs_name(g, force, x));
                let w = choose|w: int| 0 <= w < es.len() && (entry_key(#[trigger] es[w]) == k && needs_name(g, force, es[w]));
                assert(pool_overflows(g, force, es, entry_key(es[w])));
            }
            return Err(
                PlanError::NotEnoughNames {
                    length,
                    pool: pools[a].key.clone(),
                    existing: orig,
                    to_rename: to_generate,
                    limit,
                },
            );
        }
        a += 1;
    }
    assert forall|w: int| 0 <= w < es.len() implies !pool_overflows(g, force, es, #[trigger] entry_key(es[w])) by {
        let b = choose|b: int| 0 <= b < pool_keys(pools@).len() && pool_keys(pools@)[b] == entry_key(es[w]);
        assert(opt_view(pools@[b].key) == entry_key(es[w]));
    }
    Ok(())
}


/// An item planned for renaming.
pub struct Item {
    pub path: ItemPath,
    pub new_name: String,
}

/// Result of planning: the items to rename and how many were skipped.
pub struct Plan {
    pub items: Vec<Item>,
    pub skipped: usize,
}

/// The new names of planned items.
pub open spec fn item_names(items: Seq<Item>) -> Seq<Seq<char>> {
    items.map_values(|it: Item| it.new_name@)
}

/// The items that get a new name, in order.
pub open spec fn planned(g: NameGenerator, force: bool, es: Seq<Entry>) -> Seq<Entry> {
    es.filter(|e: Entry| needs_name(g, force, e))
}

/// The names taken before any name is generated: those the generator
/// remembers and the names of all the items.
pub open spec fn start_names(g: NameGenerator, es: Seq<Entry>) -> Set<Seq<char>> {
    g.used_names().union(es.map_values(|e: Entry| entry_name(e)).to_set())
}

/// How many names of pool `k` are taken before any name is generated.
pub open spec fn pool_taken(g: NameGenerator, es: Seq<Entry>, k: Option<Seq<char>>) -> nat {
    start_names(g, es).intersect(g.candidates_for(k)).len()
}

/// Pool `k` must generate names, and the names of its pattern that are not
/// taken are fewer than its items to rename.
pub open spec fn pool_exhausted(g: NameGenerator, force: bool, es: Seq<Entry>, k: Option<Seq<char>>) -> bool {
    &&& pool_gen(g, force, es, k) > 0
    &&& pool_taken(g, es, k) + pool_gen(g, force, es, k) > name_space(g.length_view())
}

/// Some pool of the run runs out of names.
pub open spec fn exhausted(g: NameGenerator, force: bool, es: Seq<Entry>) -> bool {
    exists|i: int| 0 <= i < es.len() && pool_exhausted(g, force, es, #[trigger] entry_key(es[i]))
}

proof fn lemma_count_where_prefix<A>(s: Seq<A>, i: int, f: spec_fn(A) -> bool)
    requires
        0 <= i <= s.len(),
    ensures
        count_where(s.take(i), f) <= count_where(s, f),
    decreases s.len(),
{
    if i < s.len() {
        assert(s.drop_last().take(i) =~= s.take(i));
        lemma_count_where_prefix(s.drop_last(), i, f);
    } else {
        assert(s.take(i) =~= s);
    }
}

/// What planning has done after the first `t` items: the items planned so
/// far, the skipped count, and the names the generator now holds.
pub open spec fn progress(
    now: NameGenerator,
    items: Seq<Item>,
    skipped: int,
    g: NameGenerator,
    force: bool,
    es: Seq<Entry>,
    t: int,
) -> bool {
    let pl = planned(g, force, es.take(t));
    &&& 0 <= t <= es.len()
    &&& now.same_settings(g)
    &&& now.used_names() == start_names(g, es).union(item_names(items).to_set())
    &&& item_names(items).no_duplicates()
    &&& items.len() == pl.len()
    &&& skipped == t - pl.len()
    &&& forall|j: int| 0 <= j < items.len() ==> {
        &&& (#[trigger] items[j]).path@ == pl[j].0
        &&& g.candidates_for(entry_key(pl[j])).contains(items[j].new_name@)
        &&& !start_names(g, es).contains(items[j].new_name@)
    }
    &&& forall|k: Option<Seq<char>>| valid_key(k) ==> (#[trigger] now.used_names().intersect(g.candidates_for(k))).len()
        == pool_taken(g, es, k) + pool_gen(g, force, es.take(t), k)
}

/// Plans the item `es[t]`: skips it, or gives it a fresh name.
fn plan_item(
    generator: &mut NameGenerator,
    path: &ItemPath,
    is_dir: bool,
    force: bool,
    items: &mut Vec<Item>,
    skipped: &mut usize,
    Ghost(g): Ghost<NameGenerator>,
    Ghost(es): Ghost<Seq<Entry>>,
    Ghost(t): Ghost<int>,
) -> (r: Result<(), PlanError>)
    requires
        progress(*old(generator), old(items)@, *old(skipped) as int, g, force, es, t),
        t < es.len(),
        es.len() <= usize::MAX,
        es[t] == (path@, is_dir),
    ensures
        match r {
            Ok(()) => progress(*final(generator), final(items)@, *final(skipped) as int, g, force, es, t + 1),
            Err(PlanError::NamesExhausted { pool }) => {
                &&& final(generator).same_settings(g)
                &&& opt_view(pool) == entry_key(es[t])
                &&& pool_exhausted(g, force, es, entry_key(es[t]))
            },
            Err(PlanError::NotEnoughNames { .. }) => false,
        },
{
    let ghost e = es[t];
    let ghost k0 = entry_key(e);
    let ghost before = *generator;
    let ghost pl = planned(g, force, es.take(t));
    proof {
        assert(es.take(t + 1) =~= es.take(t).push(e));
        assert(es.take(t + 1).drop_last() =~= es.take(t));
        es.take(t).lemma_filter_push(e, |x: Entry| needs_name(g, force, x));
        lemma_pool_key_valid(entry_name(e), is_dir);
        assert forall|k: Option<Seq<char>>| valid_key(k) implies pool_gen(g, force, es.take(t + 1), k)
            == pool_gen(g, force, es.take(t), k) + if k == k0 && needs_name(g, force, e) { 1nat } else { 0nat } by {
            lemma_count_where_push(es.take(t), e, |x: Entry| entry_key(x) == k && needs_name(g, force, x));
        }
    }
    let name = path.basename();
    if !force && generator.matches_pattern(name, is_dir) {
        assert(planned(g, force, es.take(t + 1)) =~= pl);
        *skipped = *skipped + 1;
        return Ok(());
    }
    assert(planned(g, force, es.take(t + 1)) =~= pl.push(e));
    match generator.try_generate(name, is_dir) {
        None => {
            proof {
                let c = g.candidates_for(k0);
                lemma_candidates_count(g.prefix_view(), g.suffix_view(), g.length_view(), k0);
                assert(before.used_names().intersect(c) =~= c);
                lemma_count_where_prefix(es, t + 1, |x: Entry| entry_key(x) == k0 && needs_name(g, force, x));
                assert(before.used_names().intersect(g.candidates_for(k0)).len() == pool_taken(g, es, k0) + pool_gen(g, force, es.take(t), k0));
            }
            Err(PlanError::NamesExhausted { pool: pool_key(name, is_dir) })
        },
        Some(new_name) => {
            let ghost n = new_name@;
            let ghost items_before = items@;
            let item = Item { path: path.duplicate(), new_name };
            items.push(item);
            proof {
                let c0 = g.candidates_for(k0);
                assert(item_names(items@) =~= item_names(items_before).push(n));
                assert(!item_names(items_before).contains(n)) by {
                    if item_names(items_before).contains(n) {
                        assert(item_names(items_before).to_set().contains(n));
                    }
                }
                assert forall|x: Seq<char>| #[trigger] item_names(items@).to_set().contains(x) <==> item_names(items_before).to_set().insert(n).contains(x) by {
                    if item_names(items@).contains(x) && x != n {
                        let j = choose|j: int| 0 <= j < item_names(items@).len() && item_names(items@)[j] == x;
                        assert(item_names(items_before)[j] == x);
                    }
                    if item_names(items_before).contains(x) {
                        let j = choose|j: int| 0 <= j < item_names(items_before).len() && item_names(items_before)[j] == x;
                        assert(item_names(items@)[j] == x);
                    }
                    if x == n {
                        assert(item_names(items@)[items_before.len() as int] == x);
                    }
                }
                assert(item_names(items@).to_set() =~= item_names(items_before).to_set().insert(n));
                assert(generator.used_names() =~= start_names(g, es).union(item_names(items@).to_set()));
                assert forall|j: int| 0 <= j < items@.len() implies {
                    &&& (#[trigger] items@[j]).path@ == planned(g, force, es.take(t + 1))[j].0
                    &&& g.candidates_for(entry_key(planned(g, force, es.take(t + 1))[j])).contains(items@[j].new_name@)
                    &&& !start_names(g, es).contains(items@[j].new_name@)
                } by {
                    if j < items_before.len() {
                        assert(items@[j] == items_before[j]);
                    }
                }
                assert forall|k: Option<Seq<char>>| valid_key(k) implies (#[trigger] generator.used_names().intersect(g.candidates_for(k))).len()
                    == pool_taken(g, es, k) + pool_gen(g, force, es.take(t + 1), k) by {
                    let ck = g.candidates_for(k);
                    lemma_candidates_count(g.prefix_view(), g.suffix_view(), g.length_view(), k);
                    vstd::set_lib::lemma_set_subset_finite(ck, before.used_names().intersect(ck));
                    if k == k0 {
                        assert(generator.used_names().intersect(ck) =~= before.used_names().intersect(ck).insert(n));
                    } else {
                        lemma_candidates_disjoint(g.prefix_view(), g.suffix_view(), g.length_view(), k, k0, n);
                        assert(generator.used_names().intersect(ck) =~= before.used_names().intersect(ck));
                    }
                }
            }
            Ok(())
        },
    }
}


/// The names of the first `t` items, as a set.
pub open spec fn entry_names(es: Seq<Entry>) -> Set<Seq<char>> {
    es.map_values(|e: Entry| entry_name(e)).to_set()
}

proof fn lemma_entry_names_push(es: Seq<Entry>, e: Entry)
    ensures
        entry_names(es.push(e)) == entry_names(es).insert(entry_name(e)),
{
    let a = es.map_values(|x: Entry| entry_name(x));
    let b = es.push(e).map_values(|x: Entry| entry_name(x));
    assert(b =~= a.push(entry_name(e)));
    assert forall|x: Seq<char>| #[trigger] b.to_set().contains(x) <==> a.to_set().insert(entry_name(e)).contains(x) by {
        if b.contains(x) && x != entry_name(e) {
            let j = choose|j: int| 0 <= j < b.len() && b[j] == x;
            assert(a[j] == x);
        }
        if a.contains(x) {
            let j = choose|j: int| 0 <= j < a.len() && a[j] == x;
            assert(b[j] == x);
        }
        if x == entry_name(e) {
            assert(b[a.len() as int] == x);
        }
    }
    assert(b.to_set() =~= a.to_set().insert(entry_name(e)));
}

/// Build the rename plan: reserve original names, partition items into
/// "to rename" vs "already-random (skip)", and generate the new names.
///
/// Returns an error when a pool of items (files sharing an extension, or
/// directories and extensionless files together) would need more distinct
/// names than `62^LENGTH` allows, or when all the names of a pool's pattern
/// are taken before its items are renamed.
pub fn plan(
    generator: &mut NameGenerator,
    files: &[ItemPath],
    dirs: &[ItemPath],
    force: bool,
) -> (r: Result<Plan, PlanError>)
    requires
        files@.len() + dirs@.len() <= u64::MAX / 4,
        files@.len() + dirs@.len() <= usize::MAX,
    ensures
        final(generator).same_settings(*old(generator)),
        match r {
            Ok(p) => {
                let g = *old(generator);
                let es = entries(files@, dirs@);
                let pl = planned(g, force, es);
                &&& !infeasible(g, force, es)
                &&& !exhausted(g, force, es)
                &&& p.skipped == es.len() - pl.len()
                &&& p.items@.len() == pl.len()
                &&& forall|j: int| 0 <= j < p.items@.len() ==> {
                    &&& (#[trigger] p.items@[j]).path@ == pl[j].0
                    &&& g.candidates_for(entry_key(pl[j])).contains(p.items@[j].new_name@)
                    &&& !start_names(g, es).contains(p.items@[j].new_name@)
                }
                &&& item_names(p.items@).no_duplicates()
                &&& final(generator).used_names() == start_names(g, es).union(item_names(p.items@).to_set())
            },
            Err(PlanError::NotEnoughNames { length, pool, existing, to_rename, limit }) => {
                let g = *old(generator);
                let es = entries(files@, dirs@);
                &&& infeasible(g, force, es)
                &&& length == g.length_view()
                &&& pool_overflows(g, force, es, opt_view(pool))
                &&& existing == pool_orig(es, opt_view(pool))
                &&& to_rename == pool_gen(g, force, es, opt_view(pool))
                &&& spec_max_names(length) == Some(limit)
                &&& *final(generator) == *old(generator)
            },
            Err(PlanError::NamesExhausted { pool }) => {
                let g = *old(generator);
                let es = entries(files@, dirs@);
                &&& !infeasible(g, force, es)
                &&& exhausted(g, force, es)
                &&& pool_exhausted(g, force, es, opt_view(pool))
            },
        },
{
    let ghost g = *generator;
    let ghost es = entries(files@, dirs@);
    proof {
        lemma_entries(files@, dirs@);
    }
    match check_feasibility(generator, files, dirs, force) {
        Ok(()) => {},
        Err(e) => {
            return Err(e);
        },
    }
    assert(es.take(0).map_values(|e: Entry| entry_name(e)).to_set() =~= Set::<Seq<char>>::empty());
    assert(g.used_names().union(entry_names(es.take(0))) =~= g.used_names());
    let mut i: usize = 0;
    while i < files.len()
        invariant
            i <= files@.len(),
            es == entries(files@, dirs@),
            g == *old(generator),
            es.len() == files@.len() + dirs@.len(),
            forall|k: int| 0 <= k < files@.len() ==> #[trigger] es[k] == (files@[k]@, false),
            generator.same_settings(g),
            generator.used_names() == g.used_names().union(entry_names(es.take(i as int))),
        decreases files@.len() - i,
    {
        proof {
            assert(es.take(i + 1) =~= es.take(i as int).push(es[i as int]));
            lemma_entry_names_push(es.take(i as int), es[i as int]);
        }
        generator.reserve(files[i].basename());
        assert(generator.used_names() =~= g.used_names().union(entry_names(es.take(i + 1))));
        i += 1;
    }
    let mut j: usize = 0;
    while j < dirs.len()
        invariant
            j <= dirs@.len(),
            es == entries(files@, dirs@),
            g == *old(generator),
            es.len() == files@.len() + dirs@.len(),
            forall|k: int| 0 <= k < dirs@.len() ==> #[trigger] es[files@.len() + k] == (dirs@[k]@, true),
            generator.same_settings(g),
            generator.used_names() == g.used_names().union(entry_names(es.take(files@.len() + j))),
        decreases dirs@.len() - j,
    {
        let ghost at = files@.len() + j;
        proof {
            assert(es.take(at + 1) =~= es.take(at).push(es[at]));
            lemma_entry_names_push(es.take(at), es[at]);
        }
        generator.reserve(dirs[j].basename());
        assert(generator.used_names() =~= g.used_names().union(entry_names(es.take(at + 1))));
        j += 1;
    }
    assert(es.take(es.len() as int) =~= es);
    let mut items: Vec<Item> = Vec::new();
    let mut skipped: usize = 0;
    proof {
        assert(item_names(items@).to_set() =~= Set::<Seq<char>>::empty());
        assert(generator.used_names() =~= start_names(g, es).union(item_names(items@).to_set()));
        assert(es.take(0) =~= Seq::<Entry>::empty());
        reveal(Seq::filter);
        assert(planned(g, force, es.take(0)) =~= Seq::<Entry>::empty());
    }
    let mut i: usize = 0;
    while i < files.len()
        invariant
            i <= files@.len(),
            es == entries(files@, dirs@),
            g == *old(generator),
            es.len() == files@.len() + dirs@.len(),
            es.len() <= usize::MAX,
            forall|k: int| 0 <= k < files@.len() ==> #[trigger] es[k] == (files@[k]@, false),
            progress(*generator, items@, skipped as int, g, force, es, i as int),
            !infeasible(g, force, es),
        decreases files@.len() - i,
    {
        match plan_item(generator, &files[i], false, force, &mut items, &mut skipped, Ghost(g), Ghost(es), Ghost(i as int)) {
            Ok(()) => {},
            Err(e) => {
                proof {
                    assert(pool_exhausted(g, force, es, entry_key(es[i as int])));
                }
                return Err(e);
            },
        }
        i += 1;
    }
    let mut j: usize = 0;
    while j < dirs.len()
        invariant
            j <= dirs@.len(),
            es == entries(files@, dirs@),
            g == *old(generator),
            es.len() == files@.len() + dirs@.len(),
            es.len() <= usize::MAX,
            forall|k: int| 0 <= k < dirs@.len() ==> #[trigger] es[files@.len() + k] == (dirs@[k]@, true),
            progress(*generator, items@, skipped as int, g, force, es, files@.len() + j),
            !infeasible(g, force, es),
        decreases dirs@.len() - j,
    {
        let ghost at = files@.len() + j;
        match plan_item(generator, &dirs[j], true, force, &mut items, &mut skipped, Ghost(g), Ghost(es), Ghost(at)) {
            Ok(()) => {},
            Err(e) => {
                proof {
                    assert(pool_exhausted(g, force, es, entry_key(es[at])));
                }
                return Err(e);
            },
        }
        j += 1;
    }
    proof {
        assert(es.take(es.len() as int) =~= es);
        assert forall|w: int| 0 <= w < es.len() implies !pool_exhausted(g, force, es, #[trigger] entry_key(es[w])) by {
            let k = entry_key(es[w]);
            lemma_pool_key_valid(entry_name(es[w]), es[w].1);
            let ck = g.candidates_for(k);
            lemma_candidates_count(g.prefix_view(), g.suffix_view(), g.length_view(), k);
            assert(generator.used_names().intersect(ck).len() == pool_taken(g, es, k) + pool_gen(g, force, es.take(es.len() as int), k));
            vstd::set_lib::lemma_len_subset(generator.used_names().intersect(ck), ck);
        }
    }
    Ok(Plan { items, skipped })
}


/// How an error names a pool.
pub open spec fn pool_description(pool: Option<Seq<char>>) -> Seq<char> {
    match pool {
        Some(ext) => debug_str(ext),
        None => "directories and extensionless files"@,
    }
}

/// The message of a planning error.
pub open spec fn plan_error_message(e: PlanError) -> Seq<char> {
    match e {
        PlanError::NotEnoughNames { length, pool, existing, to_rename, limit } => "cannot rename with --length "@
            + decimal(length as nat) + ": "@ + pool_description(opt_view(pool)) + " needs "@ + decimal(
            (existing + to_rename) as nat,
        ) + " unique names ("@ + decimal(existing as nat) + " existing + "@ + decimal(
            to_rename as nat,
        ) + " to rename) but only 62^"@ + decimal(length as nat) + " = "@ + decimal(limit as nat)
            + " are possible. Use a longer --length."@,
        PlanError::NamesExhausted { pool } => "cannot rename: every name left for "@
            + pool_description(opt_view(pool)) + " is already taken. Use a longer --length."@,
    }
}

/// The text of a pool's description.
fn describe_pool(pool: &Option<String>) -> (r: String)
    ensures
        r@ == pool_description(opt_view(*pool)),
{
    match pool {
        Some(ext) => {
            debug_text(ext.as_str())
        },
        None => "directories and extensionless files".to_owned(),
    }
}

impl PlanError {
    /// The message shown for this error.
    pub fn message(&self) -> (r: String)
        ensures
            r@ == plan_error_message(*self),
    {
        match self {
            PlanError::NotEnoughNames { length, pool, existing, to_rename, limit } => {
                let mut r = "cannot rename with --length ".to_owned();
                append_str(&mut r, decimal_text(*length as u128).as_str());
                append_str(&mut r, ": ");
                append_str(&mut r, describe_pool(pool).as_str());
                append_str(&mut r, " needs ");
                append_str(&mut r, decimal_text(*existing as u128 + *to_rename as u128).as_str());
                append_str(&mut r, " unique names (");
                append_str(&mut r, decimal_text(*existing as u128).as_str());
                append_str(&mut r, " existing + ");
                append_str(&mut r, decimal_text(*to_rename as u128).as_str());
                append_str(&mut r, " to rename) but only 62^");
                append_str(&mut r, decimal_text(*length as u128).as_str());
                append_str(&mut r, " = ");
                append_str(&mut r, decimal_text(*limit as u128).as_str());
                append_str(&mut r, " are possible. Use a longer --length.");
                r
            },
            PlanError::NamesExhausted { pool } => {
                let mut r = "cannot rename: every name left for ".to_owned();
                append_str(&mut r, describe_pool(pool).as_str());
                append_str(&mut r, " is already taken. Use a longer --length.");
                r
            },
        }
    }
}


/// What a directory entry is (`std::fs::FileType`, symbolic links not followed).
#[derive(PartialEq, Eq, Structural, Clone, Copy, Debug)]
pub enum EntryKind {
    File,
    Dir,
    Other,
}

/// An entry found while walking the target directory.
pub struct ListedEntry {
    pub path: ItemPath,
    pub kind: EntryKind,
}

/// The path lies below the target, and none of its components below the
/// target is hidden.
pub open spec fn visible_below(p: Seq<Seq<char>>, target: Seq<Seq<char>>) -> bool {
    &&& has_prefix(p, target)
    &&& p.len() > target.len()
    &&& forall|i: int| target.len() <= i < p.len() ==> !spec_is_hidden(#[trigger] p[i])
}

/// A file to rename: visible below the target, and directly in it unless recursive.
pub open spec fn is_selected_file(e: ListedEntry, target: Seq<Seq<char>>, recursive: bool) -> bool {
    &&& e.kind == EntryKind::File
    &&& visible_below(e.path@, target)
    &&& (recursive || e.path@.len() == target.len() + 1)
}

/// A directory to rename: visible below the target.
pub open spec fn is_selected_dir(e: ListedEntry, target: Seq<Seq<char>>) -> bool {
    &&& e.kind == EntryKind::Dir
    &&& visible_below(e.path@, target)
}

/// The paths of the entries that satisfy `pred`, in listing order.
pub open spec fn selected_paths(listing: Seq<ListedEntry>, pred: spec_fn(ListedEntry) -> bool) -> Seq<Seq<Seq<char>>> {
    listing.filter(pred).map_values(|e: ListedEntry| e.path@)
}

/// The paths of all the entries of a listing.
pub open spec fn listed_paths(listing: Seq<ListedEntry>) -> Seq<Seq<Seq<char>>> {
    listing.map_values(|e: ListedEntry| e.path@)
}

proof fn lemma_selected_distinct(listing: Seq<ListedEntry>, pred: spec_fn(ListedEntry) -> bool)
    requires
        listed_paths(listing).no_duplicates(),
    ensures
        selected_paths(listing, pred).no_duplicates(),
        forall|y: Seq<Seq<char>>| #[trigger] selected_paths(listing, pred).contains(y) ==> listed_paths(
            listing,
        ).drop_last().contains(y) || (listing.len() > 0 && y == listing.last().path@),
    decreases listing.len(),
{
    reveal(Seq::filter);
    if listing.len() == 0 {
        assert(listing.filter(pred) =~= Seq::<ListedEntry>::empty());
        assert(selected_paths(listing, pred) =~= Seq::<Seq<Seq<char>>>::empty());
    } else {
        let s = listing.drop_last();
        let x = listing.last();
        let all = listed_paths(listing);
        assert(listed_paths(s) =~= all.drop_last());
        assert forall|a: int, b: int| 0 <= a < b < listed_paths(s).len() implies listed_paths(s)[a]
            != listed_paths(s)[b] by {
            assert(listed_paths(s)[a] == all[a] && listed_paths(s)[b] == all[b]);
        }
        lemma_selected_distinct(s, pred);
        assert forall|y: Seq<Seq<char>>| #[trigger] selected_paths(s, pred).contains(y) implies all.drop_last().contains(y) by {
            if !listed_paths(s).drop_last().contains(y) {
                assert(s.len() > 0 && y == s.last().path@);
                assert(listed_paths(s)[s.len() - 1] == y);
            } else {
                let i = choose|i: int| 0 <= i < listed_paths(s).drop_last().len() && listed_paths(s).drop_last()[i] == y;
                assert(listed_paths(s)[i] == y);
            }
        }
        s.lemma_filter_push(x, pred);
        assert(listing =~= s.push(x));
        if pred(x) {
            assert(selected_paths(listing, pred) =~= selected_paths(s, pred).push(x.path@));
            if selected_paths(s, pred).contains(x.path@) {
                let i = choose|i: int| 0 <= i < all.drop_last().len() && all.drop_last()[i] == x.path@;
                assert(all[i] == all[all.len() - 1]);
            }
            let sel = selected_paths(s, pred);
            assert forall|a: int, b: int| 0 <= a < b < sel.push(x.path@).len() implies sel.push(x.path@)[a]
                != sel.push(x.path@)[b] by {
                if b == sel.len() {
                    assert(sel.contains(sel[a]));
                }
            }
            assert forall|y: Seq<Seq<char>>| #[trigger] sel.push(x.path@).contains(y) implies all.drop_last().contains(y)
                || y == x.path@ by {
                if y != x.path@ {
                    let i = choose|i: int| 0 <= i < sel.push(x.path@).len() && sel.push(x.path@)[i] == y;
                    assert(sel[i] == y);
                    assert(sel.contains(y));
                }
            }
        } else {
            assert(selected_paths(listing, pred) =~= selected_paths(s, pred));
        }
    }
}

/// No path that a listing's selection keeps has a hidden component below
/// the target (one whose first character is `.`, as `.git` or
/// `.eslintrc.json`), when the selection keeps only paths visible below it.
pub proof fn lemma_selected_not_hidden(
    listing: Seq<ListedEntry>,
    target: Seq<Seq<char>>,
    pred: spec_fn(ListedEntry) -> bool,
    p: Seq<Seq<char>>,
)
    requires
        forall|e: ListedEntry| #[trigger] pred(e) ==> visible_below(e.path@, target),
        selected_paths(listing, pred).contains(p),
    ensures
        has_prefix(p, target),
        p.len() > target.len(),
        forall|i: int| target.len() <= i < p.len() ==> !(p[i].len() > 0 && #[trigger] p[i][0] == '.'),
{
    let fl = listing.filter(pred);
    let sel = selected_paths(listing, pred);
    let j = choose|j: int| 0 <= j < sel.len() && sel[j] == p;
    listing.lemma_filter_pred(pred, j);
    assert(fl[j].path@ == p);
    assert(visible_below(p, target));
    assert forall|i: int| target.len() <= i < p.len() implies !(p[i].len() > 0 && #[trigger] p[i][0] == '.') by {
        assert(!spec_is_hidden(p[i]));
    }
}

/// The paths of `found`, all kept by a selection of `listing` that keeps only
/// paths visible below `target`, have no hidden component below it.
proof fn lemma_found_not_hidden(
    found: Seq<ItemPath>,
    listing: Seq<ListedEntry>,
    target: Seq<Seq<char>>,
    pred: spec_fn(ListedEntry) -> bool,
)
    requires
        forall|e: ListedEntry| #[trigger] pred(e) ==> visible_below(e.path@, target),
        paths_view(found).to_multiset() == selected_paths(listing, pred).to_multiset(),
    ensures
        forall|j: int, i: int|
            0 <= j < found.len() && target.len() <= i < found[j]@.len() ==> !(found[j]@[i].len() > 0
                && #[trigger] found[j]@[i][0] == '.'),
{
    assert forall|j: int, i: int|
        0 <= j < found.len() && target.len() <= i < found[j]@.len() implies !(found[j]@[i].len() > 0
            && #[trigger] found[j]@[i][0] == '.') by {
        let p = found[j]@;
        assert(paths_view(found)[j] == p);
        vstd::seq_lib::to_multiset_contains(paths_view(found), p);
        vstd::seq_lib::to_multiset_contains(selected_paths(listing, pred), p);
        lemma_selected_not_hidden(listing, target, pred, p);
    }
}

proof fn lemma_same_multiset_distinct(a: Seq<Seq<Seq<char>>>, b: Seq<Seq<Seq<char>>>)
    requires
        a.to_multiset() == b.to_multiset(),
        b.no_duplicates(),
    ensures
        a.no_duplicates(),
{
    b.lemma_multiset_has_no_duplicates();
    a.lemma_multiset_has_no_duplicates_conv();
}

/// Whether the walk goes into a directory entry named `name`: when it is a
/// visible directory and files below (`recursive`) or directories
/// (`rename_dirs`) are wanted.
pub fn descend_into(name: &str, kind: EntryKind, recursive: bool, rename_dirs: bool) -> (r: bool)
    ensures
        r == (kind == EntryKind::Dir && !spec_is_hidden(name@) && (recursive || rename_dirs)),
{
    kind == EntryKind::Dir && !is_hidden(name) && (recursive || rename_dirs)
}

/// Whether `p` is visible below `target`.
fn is_visible_below(p: &ItemPath, target: &ItemPath) -> (r: bool)
    ensures
        r == visible_below(p@, target@),
{
    if !p.starts_with(target) || p.components.len() <= target.components.len() {
        return false;
    }
    let mut i = target.components.len();
    while i < p.components.len()
        invariant
            target@.len() <= i <= p@.len(),
            has_prefix(p@, target@),
            p@.len() > target@.len(),
            forall|k: int| target@.len() <= k < i ==> !spec_is_hidden(#[trigger] p@[k]),
        decreases p@.len() - i,
    {
        if is_hidden(p.components[i].as_str()) {
            assert(p@[i as int] == p.components@[i as int]@);
            return false;
        }
        i += 1;
    }
    true
}

/// Picks, from the walk's listing, the paths that `keep` selects.
fn select(
    listing: &[ListedEntry],
    target: &ItemPath,
    dirs: bool,
    recursive: bool,
) -> (r: Vec<ItemPath>)
    ensures
        paths_view(r@) == selected_paths(
            listing@,
            if dirs {
                |e: ListedEntry| is_selected_dir(e, target@)
            } else {
                |e: ListedEntry| is_selected_file(e, target@, recursive)
            },
        ),
{
    let ghost pred = if dirs {
        |e: ListedEntry| is_selected_dir(e, target@)
    } else {
        |e: ListedEntry| is_selected_file(e, target@, recursive)
    };
    let mut r: Vec<ItemPath> = Vec::new();
    let mut i: usize = 0;
    proof {
        reveal(Seq::filter);
        assert(listing@.take(0).filter(pred) =~= Seq::<ListedEntry>::empty());
        assert(paths_view(r@) =~= listing@.take(0).filter(pred).map_values(|e: ListedEntry| e.path@));
    }
    while i < listing.len()
        invariant
            i <= listing@.len(),
            pred == (if dirs {
                |e: ListedEntry| is_selected_dir(e, target@)
            } else {
                |e: ListedEntry| is_selected_file(e, target@, recursive)
            }),
            paths_view(r@) == listing@.take(i as int).filter(pred).map_values(|e: ListedEntry| e.path@),
        decreases listing@.len() - i,
    {
        let e = &listing[i];
        let keep = if dirs {
            e.kind == EntryKind::Dir && is_visible_below(&e.path, target)
        } else {
            e.kind == EntryKind::File && is_visible_below(&e.path, target) && (recursive
                || e.path.components.len() == target.components.len() + 1)
        };
        let ghost before = paths_view(r@);
        proof {
            assert(listing@.take(i + 1) =~= listing@.take(i as int).push(listing@[i as int]));
            listing@.take(i as int).lemma_filter_push(listing@[i as int], pred);
            assert(keep == pred(listing@[i as int]));
        }
        if keep {
            r.push(e.path.duplicate());
            assert(paths_view(r@) =~= before.push(e.path@));
        }
        i += 1;
    }
    assert(listing@.take(listing@.len() as int) =~= listing@);
    r
}

/// The files (and, with `rename_dirs`, the directories) to rename, from the
/// entries the walk of `target` found.
///
/// Returns `(files, dirs)`:
/// - `files`: non-hidden files, sorted alphabetically; those of subdirectories
///   only when `recursive` is true.
/// - `dirs`: non-hidden subdirectories, deepest first (bottom-up), only when
///   `rename_dirs` is true.
pub fn discover(
    target: &ItemPath,
    listing: &[ListedEntry],
    recursive: bool,
    rename_dirs: bool,
) -> (r: (Vec<ItemPath>, Vec<ItemPath>))
    ensures
        sorted_by(paths_view(r.0@), listing_order(false)),
        paths_view(r.0@).to_multiset() == selected_paths(
            listing@,
            |e: ListedEntry| is_selected_file(e, target@, recursive),
        ).to_multiset(),
        sorted_by(paths_view(r.1@), listing_order(true)),
        rename_dirs ==> paths_view(r.1@).to_multiset() == selected_paths(
            listing@,
            |e: ListedEntry| is_selected_dir(e, target@),
        ).to_multiset(),
        !rename_dirs ==> r.1@.len() == 0,
        listed_paths(listing@).no_duplicates() ==> paths_view(r.0@).no_duplicates() && paths_view(
            r.1@,
        ).no_duplicates(),
        forall|j: int, i: int|
            0 <= j < r.0@.len() && target@.len() <= i < r.0@[j]@.len() ==> !(r.0@[j]@[i].len() > 0
                && #[trigger] r.0@[j]@[i][0] == '.'),
        forall|j: int, i: int|
            0 <= j < r.1@.len() && target@.len() <= i < r.1@[j]@.len() ==> !(r.1@[j]@[i].len() > 0
                && #[trigger] r.1@[j]@[i][0] == '.'),
{
    let found = select(listing, target, false, recursive);
    let files = sort_paths(&found, false);
    let mut dirs: Vec<ItemPath> = Vec::new();
    if rename_dirs {
        let found_dirs = select(listing, target, true, recursive);
        dirs = sort_paths(&found_dirs, true);
    }
    proof {
        let fp = |e: ListedEntry| is_selected_file(e, target@, recursive);
        let dp = |e: ListedEntry| is_selected_dir(e, target@);
        lemma_found_not_hidden(files@, listing@, target@, fp);
        if rename_dirs {
            lemma_found_not_hidden(dirs@, listing@, target@, dp);
        }
        if listed_paths(listing@).no_duplicates() {
            let file_pred = |e: ListedEntry| is_selected_file(e, target@, recursive);
            let dir_pred = |e: ListedEntry| is_selected_dir(e, target@);
            lemma_selected_distinct(listing@, file_pred);
            lemma_same_multiset_distinct(paths_view(files@), selected_paths(listing@, file_pred));
            if rename_dirs {
                lemma_selected_distinct(listing@, dir_pred);
                lemma_same_multiset_distinct(paths_view(dirs@), selected_paths(listing@, dir_pred));
            } else {
                assert(paths_view(dirs@) =~= Seq::<Seq<Seq<char>>>::empty());
            }
        }
    }
    (files, dirs)
}


/// How many planned renames the preview shows.
pub const PREVIEW_MAX: usize = 20;

/// A path displayed relative to the target directory.
pub fn display_path(path: &ItemPath, target: &ItemPath) -> (r: String)
    ensures
        r@ == path_text(spec_relative(path@, target@)),
{
    relative_text(path, target)
}

impl Item {
    /// The path the item gets: its directory joined with its new name.
    pub open spec fn spec_new_path(self) -> Seq<Seq<char>> {
        spec_parent(self.path@).push(self.new_name@)
    }

    /// The path the item gets: its directory joined with its new name.
    pub fn new_path(&self) -> (r: ItemPath)
        ensures
            r@ == self.spec_new_path(),
    {
        self.path.parent_joined(&self.new_name)
    }
}

/// The displayed original path of a planned rename.
pub open spec fn shown_old(it: Item, target: Seq<Seq<char>>) -> Seq<char> {
    path_text(spec_relative(it.path@, target))
}

/// The widest displayed original path among `items`, in characters.
pub open spec fn old_width(items: Seq<Item>, target: Seq<Seq<char>>) -> nat
    decreases items.len(),
{
    if items.len() == 0 {
        0
    } else {
        let w = old_width(items.drop_last(), target);
        let l = shown_old(items.last(), target).len();
        if l > w {
            l
        } else {
            w
        }
    }
}

/// `n` spaces.
pub open spec fn spaces(n: nat) -> Seq<char> {
    Seq::new(n, |i: int| ' ')
}

/// The preview line of one planned rename, its original path padded to `width`.
pub open spec fn preview_line(it: Item, target: Seq<Seq<char>>, width: nat) -> Seq<char> {
    let old = shown_old(it, target);
    "  "@ + old + spaces((width - old.len()) as nat) + " -> "@ + path_text(
        spec_relative(it.spec_new_path(), target),
    )
}

/// The lines of the preview: target (as the user wrote it), the renames to
/// perform (at most `PREVIEW_MAX` of them, with the original paths padded to
/// one column, then a count of the others), plus a note about skipped items.
pub open spec fn spec_preview(
    items: Seq<Item>,
    skipped: nat,
    target: Seq<Seq<char>>,
    shown_target: Seq<char>,
) -> Seq<Seq<char>> {
    let n = items.len();
    let shown = if n <= 20 { n } else { 20 };
    let width = old_width(items.take(shown as int), target);
    seq!["Target: "@ + shown_target, "Items to rename ("@ + decimal(n) + "):"@]
        + items.take(shown as int).map_values(|it: Item| preview_line(it, target, width)) + (if n > 20 {
        seq!["  ... and "@ + decimal((n - 20) as nat) + " more (preview truncated, showing 20)"@]
    } else {
        Seq::empty()
    }) + (if skipped > 0 {
        seq![decimal(skipped) + " already-random item(s) skipped (use --force to rename them)."@]
    } else {
        Seq::empty()
    })
}

/// The preview line of one planned rename.
fn preview_line_text(it: &Item, target: &ItemPath, width: usize) -> (r: String)
    requires
        width >= shown_old(*it, target@).len(),
    ensures
        r@ == preview_line(*it, target@, width as nat),
{
    let old = display_path(&it.path, target);
    let old_len = chars_of(old.as_str()).len();
    let mut line = "  ".to_owned();
    append_str(&mut line, old.as_str());
    let ghost before = line@;
    let mut k: usize = old_len;
    while k < width
        invariant
            old_len <= k <= width,
            line@ == before + spaces((k - old_len) as nat),
        decreases width - k,
    {
        push_char(&mut line, ' ');
        assert(before + spaces((k + 1 - old_len) as nat) =~= (before + spaces((k - old_len) as nat)).push(' '));
        k += 1;
    }
    append_str(&mut line, " -> ");
    append_str(&mut line, display_path(&it.new_path(), target).as_str());
    line
}

/// The widest displayed original path among `items[..shown]`.
fn widest_old(items: &[Item], shown: usize, target: &ItemPath) -> (w: usize)
    requires
        shown <= items@.len(),
    ensures
        w == old_width(items@.take(shown as int), target@),
        forall|j: int| 0 <= j < shown ==> shown_old(#[trigger] items@[j], target@).len() <= w,
{
    let mut w: usize = 0;
    let mut i: usize = 0;
    assert(items@.take(0) =~= Seq::<Item>::empty());
    while i < shown
        invariant
            i <= shown <= items@.len(),
            w == old_width(items@.take(i as int), target@),
            forall|j: int| 0 <= j < i ==> shown_old(#[trigger] items@[j], target@).len() <= w,
        decreases shown - i,
    {
        let l = chars_of(display_path(&items[i].path, target).as_str()).len();
        assert(items@.take(i + 1).drop_last() =~= items@.take(i as int));
        assert(items@.take(i + 1).last() == items@[i as int]);
        if l > w {
            w = l;
        }
        i += 1;
    }
    w
}

proof fn lemma_old_width_bound(items: Seq<Item>, target: Seq<Seq<char>>)
    ensures
        forall|k: int| 0 <= k < items.len() ==> shown_old(#[trigger] items[k], target).len() <= old_width(
            items,
            target,
        ),
    decreases items.len(),
{
    if items.len() > 0 {
        let rest = items.drop_last();
        lemma_old_width_bound(rest, target);
        assert forall|k: int| 0 <= k < items.len() implies shown_old(#[trigger] items[k], target).len()
            <= old_width(items, target) by {
            if k < rest.len() {
                assert(items[k] == rest[k]);
            }
        }
    }
}

/// The shown lines of the rename preview: line `k + 2`, for each of the
/// first 20 items, begins with two spaces and the item's path relative to
/// the target, and ends with ` -> ` and the text of its new path (its
/// directory joined with the new name) relative to the target, so an item
/// of a subdirectory shows that subdirectory on both sides; and the arrows
/// of all shown lines stand in one column.
pub proof fn lemma_preview_shows_old_and_new_paths(
    items: Seq<Item>,
    skipped: nat,
    target: Seq<Seq<char>>,
    shown_target: Seq<char>,
)
    ensures
        ({
            let lines = spec_preview(items, skipped, target, shown_target);
            let shown = if items.len() <= 20 { items.len() as int } else { 20 };
            &&& lines.len() >= 2 + shown
            &&& lines[0] == "Target: "@ + shown_target
            &&& forall|k: int| 0 <= k < shown ==> {
                let line = #[trigger] lines[k + 2];
                let old = "  "@ + path_text(spec_relative(items[k].path@, target));
                let new = " -> "@ + path_text(
                    spec_relative(spec_parent(items[k].path@).push(items[k].new_name@), target),
                );
                &&& line.len() >= old.len() + new.len()
                &&& line.subrange(0, old.len() as int) == old
                &&& line.subrange(line.len() - new.len(), line.len() as int) == new
            }
            &&& forall|k1: int, k2: int| 0 <= k1 < shown && 0 <= k2 < shown ==> (#[trigger] lines[k1 + 2]).len()
                - path_text(spec_relative(spec_parent(items[k1].path@).push(items[k1].new_name@), target)).len()
                == (#[trigger] lines[k2 + 2]).len() - path_text(
                spec_relative(spec_parent(items[k2].path@).push(items[k2].new_name@), target),
            ).len()
        }),
{
    let lines = spec_preview(items, skipped, target, shown_target);
    let n = items.len();
    let shown = if n <= 20 { n as int } else { 20 };
    let head = items.take(shown);
    let width = old_width(head, target);
    lemma_old_width_bound(head, target);
    let body = head.map_values(|it: Item| preview_line(it, target, width));
    assert forall|k: int| 0 <= k < shown implies #[trigger] lines[k + 2] == preview_line(items[k], target, width) by {
        assert(head[k] == items[k]);
        assert(body[k] == preview_line(items[k], target, width));
    }
    assert forall|k: int| 0 <= k < shown implies {
        let line = #[trigger] lines[k + 2];
        let old = "  "@ + path_text(spec_relative(items[k].path@, target));
        let new = " -> "@ + path_text(
            spec_relative(spec_parent(items[k].path@).push(items[k].new_name@), target),
        );
        &&& line.len() >= old.len() + new.len()
        &&& line.subrange(0, old.len() as int) == old
        &&& line.subrange(line.len() - new.len(), line.len() as int) == new
        &&& line.len() == 2 + width + new.len()
    } by {
        let it = items[k];
        assert(head[k] == it);
        let o = shown_old(it, target);
        assert(o.len() <= width);
        let old = "  "@ + o;
        let pad = spaces((width - o.len()) as nat);
        let new = " -> "@ + path_text(spec_relative(it.spec_new_path(), target));
        let line = lines[k + 2];
        let t = path_text(spec_relative(it.spec_new_path(), target));
        reveal_strlit("  ");
        assert(line == preview_line(it, target, width));
        assert(preview_line(it, target, width) == "  "@ + o + pad + " -> "@ + t);
        assert("  "@ + o + pad + " -> "@ + t =~= old + pad + new);
        assert(pad.len() == width - o.len());
        assert(line.len() == 2 + width + new.len());
        assert(line.subrange(0, old.len() as int) =~= old);
        assert(line.subrange(line.len() - new.len(), line.len() as int) =~= new);
    }
}

/// The preview: target, the renames to perform, truncating after
/// `PREVIEW_MAX` lines, plus a note about skipped items. `shown_target` is
/// the target as the user wrote it.
pub fn preview_lines(items: &[Item], skipped: usize, target: &ItemPath, shown_target: &str) -> (r: Vec<String>)
    ensures
        names_view(r@) == spec_preview(items@, skipped as nat, target@, shown_target@),
        forall|k: int| 0 <= k < 20 && k < items@.len() ==> {
            let line = (#[trigger] r@[k + 2])@;
            let old = "  "@ + path_text(spec_relative(items@[k].path@, target@));
            let new = " -> "@ + path_text(
                spec_relative(spec_parent(items@[k].path@).push(items@[k].new_name@), target@),
            );
            &&& line.len() >= old.len() + new.len()
            &&& line.subrange(0, old.len() as int) == old
            &&& line.subrange(line.len() - new.len(), line.len() as int) == new
        },
{
    proof {
        lemma_preview_shows_old_and_new_paths(items@, skipped as nat, target@, shown_target@);
    }
    let mut lines: Vec<String> = Vec::new();
    let mut first = "Target: ".to_owned();
    append_str(&mut first, shown_target);
    lines.push(first);
    assert(names_view(lines@) =~= seq![first@]);
    let mut second = "Items to rename (".to_owned();
    append_str(&mut second, decimal_text(items.len() as u128).as_str());
    append_str(&mut second, "):");
    let ghost one = names_view(lines@);
    lines.push(second);
    assert(names_view(lines@) =~= one.push(second@));
    let n = items.len();
    let shown = if n <= PREVIEW_MAX { n } else { PREVIEW_MAX };
    let width = widest_old(items, shown, target);
    let ghost head = names_view(lines@);
    let ghost f = |it: Item| preview_line(it, target@, width as nat);
    let mut i: usize = 0;
    while i < shown
        invariant
            shown <= n == items@.len(),
            i <= shown,
            head.len() == 2,
            names_view(lines@) == head + items@.take(i as int).map_values(f),
            f == (|it: Item| preview_line(it, target@, width as nat)),
            forall|j: int| 0 <= j < shown ==> shown_old(#[trigger] items@[j], target@).len() <= width,
        decreases shown - i,
    {
        let line = preview_line_text(&items[i], target, width);
        let ghost before = names_view(lines@);
        lines.push(line);
        assert(items@.take(i + 1).map_values(f) =~= items@.take(i as int).map_values(f).push(f(items@[i as int])));
        assert(names_view(lines@) =~= before.push(line@));
        i += 1;
    }
    let ghost body = names_view(lines@);
    if n > PREVIEW_MAX {
        let mut more = "  ... and ".to_owned();
        append_str(&mut more, decimal_text((n - PREVIEW_MAX) as u128).as_str());
        append_str(&mut more, " more (preview truncated, showing 20)");
        let ghost b = names_view(lines@);
        lines.push(more);
        assert(names_view(lines@) =~= b.push(more@));
    }
    if skipped > 0 {
        let mut note = decimal_text(skipped as u128);
        append_str(&mut note, " already-random item(s) skipped (use --force to rename them).");
        let ghost b = names_view(lines@);
        lines.push(note);
        assert(names_view(lines@) =~= b.push(note@));
    }
    assert(items@.take(shown as int).map_values(f) == body.subrange(2, body.len() as int));
    assert(names_view(lines@) =~= spec_preview(items@, skipped as nat, target@, shown_target@));
    assert forall|k: int| 0 <= k < 20 && k < items@.len() implies {
        let line = (#[trigger] lines@[k + 2])@;
        let old = "  "@ + path_text(spec_relative(items@[k].path@, target@));
        let new = " -> "@ + path_text(
            spec_relative(spec_parent(items@[k].path@).push(items@[k].new_name@), target@),
        );
        &&& line.len() >= old.len() + new.len()
        &&& line.subrange(0, old.len() as int) == old
        &&& line.subrange(line.len() - new.len(), line.len() as int) == new
    } by {
        let sp = spec_preview(items@, skipped as nat, target@, shown_target@);
        assert(names_view(lines@)[k + 2] == lines@[k + 2]@);
        assert(sp[k + 2] == lines@[k + 2]@);
    }
    lines
}

/// The lines shown when a plan has nothing to rename: a note about the
/// skipped items, if any, then "No items to rename.".
pub open spec fn spec_empty_plan(skipped: nat) -> Seq<Seq<char>> {
    (if skipped > 0 {
        seq![decimal(skipped) + " already-random item(s) skipped (use --force to rename them)."@]
    } else {
        Seq::empty()
    }) + seq!["No items to rename."@]
}

/// What a run says when its plan renames nothing, `skipped` items having
/// been skipped.
pub fn empty_plan_lines(skipped: usize) -> (r: Vec<String>)
    ensures
        names_view(r@) == spec_empty_plan(skipped as nat),
{
    let mut lines: Vec<String> = Vec::new();
    if skipped > 0 {
        let mut note = decimal_text(skipped as u128);
        append_str(&mut note, " already-random item(s) skipped (use --force to rename them).");
        lines.push(note);
    }
    let ghost b = names_view(lines@);
    let last = "No items to rename.".to_owned();
    lines.push(last);
    assert(names_view(lines@) =~= b.push(last@));
    assert(names_view(lines@) =~= spec_empty_plan(skipped as nat));
    lines
}

/// The summary line printed after renaming.
pub open spec fn spec_summary(renamed: nat, skipped: nat, failed: nat) -> Seq<char> {
    "Done: "@ + decimal(renamed) + " renamed, "@ + decimal(skipped) + " skipped, "@ + decimal(failed)
        + " failed."@
}

/// The final summary line.
pub fn summary_line(renamed: usize, skipped: usize, failed: usize) -> (r: String)
    ensures
        r@ == spec_summary(renamed as nat, skipped as nat, failed as nat),
{
    let mut line = "Done: ".to_owned();
    append_str(&mut line, decimal_text(renamed as u128).as_str());
    append_str(&mut line, " renamed, ");
    append_str(&mut line, decimal_text(skipped as u128).as_str());
    append_str(&mut line, " skipped, ");
    append_str(&mut line, decimal_text(failed as u128).as_str());
    append_str(&mut line, " failed.");
    line
}


proof fn lemma_count_is_filter_len<A>(s: Seq<A>, f: spec_fn(A) -> bool)
    ensures
        count_where(s, f) == s.filter(f).len(),
    decreases s.len(),
{
    reveal(Seq::filter);
    if s.len() > 0 {
        lemma_count_is_filter_len(s.drop_last(), f);
    }
}

/// When neither the prefix nor the suffix holds a `/` or a `.`, the pattern
/// is not empty, no directory name holds a `.`, and the generator remembers
/// no name yet, a run that passes the feasibility check never runs out of
/// names: each pool's taken names are among its own items.
pub proof fn lemma_feasible_runs_do_not_exhaust(
    g: NameGenerator,
    force: bool,
    files: Seq<ItemPath>,
    dirs: Seq<ItemPath>,
)
    requires
        g.used_names() == Set::<Seq<char>>::empty(),
        crate::file_name::free_of(g.prefix_view(), '/'),
        crate::file_name::free_of(g.prefix_view(), '.'),
        crate::file_name::free_of(g.suffix_view(), '/'),
        crate::file_name::free_of(g.suffix_view(), '.'),
        g.prefix_view().len() + g.length_view() + g.suffix_view().len() > 0,
        forall|j: int| 0 <= j < dirs.len() ==> crate::file_name::free_of(#[trigger] spec_basename(dirs[j]@), '.'),
        files.len() + dirs.len() <= u64::MAX / 4,
        !infeasible(g, force, entries(files, dirs)),
    ensures
        !exhausted(g, force, entries(files, dirs)),
{
    let es = entries(files, dirs);
    lemma_entries(files, dirs);
    assert forall|i: int| 0 <= i < es.len() implies !pool_exhausted(g, force, es, #[trigger] entry_key(es[i])) by {
        let k = entry_key(es[i]);
        lemma_pool_key_dotted(entry_name(es[i]), es[i].1);
        let same = |e: Entry| entry_key(e) == k;
        let own = es.filter(same).map_values(|e: Entry| entry_name(e)).to_set();
        let taken = start_names(g, es).intersect(g.candidates_for(k));
        let names = es.map_values(|e: Entry| entry_name(e));
        assert(start_names(g, es) =~= names.to_set());
        assert forall|n: Seq<char>| #[trigger] taken.contains(n) implies own.contains(n) by {
            let j = choose|j: int| 0 <= j < names.len() && #[trigger] names[j] == n;
            assert(entry_name(es[j]) == n);
            lemma_candidate_pool(g.prefix_view(), g.suffix_view(), g.length_view(), k, n);
            if es[j].1 {
                let d = j - files.len();
                assert(es[j] == (dirs[d]@, true));
                if k is Some {
                    assert(crate::file_name::free_of(spec_basename(dirs[d]@), '.'));
                }
                assert(entry_key(es[j]) == k);
            } else {
                assert(entry_key(es[j]) == k);
            }
            es.lemma_filter_contains(same, j);
            let fl = es.filter(same);
            let q = choose|q: int| 0 <= q < fl.len() && fl[q] == es[j];
            assert(fl.map_values(|e: Entry| entry_name(e))[q] == n);
        }
        es.filter(same).map_values(|e: Entry| entry_name(e)).lemma_cardinality_of_set();
        vstd::set_lib::lemma_len_subset(taken, own);
        lemma_count_is_filter_len(es, same);
        lemma_count_where_bound(es, same);
        lemma_count_where_bound(es, |e: Entry| entry_key(e) == k && needs_name(g, force, e));
        assert(taken.len() <= pool_orig(es, k));
        if pool_gen(g, force, es, k) > 0 {
            g.lemma_length_fits();
            crate::names::lemma_max_names_none_iff_overflow(g.length_view() as usize);
        }
    }
}

} // verus!
