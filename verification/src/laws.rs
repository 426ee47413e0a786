//! The laws of the snapshot engine, proved once and for all against the
//! abstract filesystem model of [`crate::disk`].
//!
//! The central invariant, [`disk_ok`], ties the ledger to the filesystem:
//! every tracked source tree exists, a numbered slot exists exactly when a
//! live save owns it — so per category and ordinal the number of numbered
//! slots equals the number of saves ([`theorem_slot_count`]) — the autosave
//! slots of a category exist exactly when its marker is set, and the
//! rotation holding spots are clear.  Each command's plan is shown to run
//! without failing on any filesystem satisfying the invariant, and to
//! leave a filesystem that satisfies it for the new ledger: see the
//! `theorem_*_disk` family, one theorem per mutating command.  On top of
//! those sit [`theorem_round_trip`] — `save`, `load` of it, `load auto`
//! restores the trees exactly — and [`theorem_fresh_index`] — real indices
//! are allocated fresh, forever.

use vstd::prelude::*;

use crate::types::{App, Category, app_wf, cat_wf};
use crate::disk::{Key, KOp, DiskOp, apply_op, apply_ops, op_enabled, ops_valid, kops_of,
    lemma_apply_concat, lemma_valid_concat, lemma_apply_one, lemma_apply_two, lemma_apply_three,
    save_kops, evict_kops, load_main_kops, load_kops, rotate_kops, overwrite_kops, remove_kops,
    delete_saves_kops, delete_kops, rename_slots_kops, rename_saves_kops, rename_autos_kops,
    rename_kops};
use crate::functions::{str_views, idxs_of, active_at, app_same_but, save_ok, cat_after_save,
    cat_marked, load_default_ok, load_named_ok, rotate_ok, remove_ok, remove_ok_at, overwrite_ok,
    overwrite_ok_at, delete_ok, rename_ok, has_category};
use crate::resolve::resolves_to;

verus! {

/// The tracked paths of `c` are pairwise distinct trees.
///
/// Nothing at creation forbids tracking one path twice; the disk laws hold
/// for categories whose tracked paths differ, since a plan that renames
/// one tree away under two names would fail on its second visit.
pub open spec fn distinct_paths(c: Category) -> bool {
    forall|p: int, q: int|
        0 <= p < q < c.paths@.len() ==> #[trigger] c.paths@[p]@ != #[trigger] c.paths@[q]@
}

/// Some category of `a` is named `cat`, tracks an ordinal `p`, and has a
/// live save with real index `r`.
pub open spec fn slot_live(a: App, cat: Seq<char>, p: int, r: int) -> bool {
    exists|ci: int, k: int|
        #![trigger a.categories@[ci].saves@[k]]
        {
            &&& 0 <= ci < a.categories@.len()
            &&& a.categories@[ci].name@ == cat
            &&& 1 <= p <= a.categories@[ci].paths@.len()
            &&& 0 <= k < a.categories@[ci].saves@.len()
            &&& a.categories@[ci].saves@[k].real_index == r
        }
}

/// Some category of `a` is named `cat`, tracks an ordinal `p`, and has
/// its autosave marker set.
pub open spec fn auto_live(a: App, cat: Seq<char>, p: int) -> bool {
    exists|ci: int|
        #![trigger a.categories@[ci]]
        {
            &&& 0 <= ci < a.categories@.len()
            &&& a.categories@[ci].name@ == cat
            &&& a.categories@[ci].auto is Some
            &&& 1 <= p <= a.categories@[ci].paths@.len()
        }
}

/// The filesystem `d` is consistent with the ledger `a`: every tracked
/// source tree exists, numbered slots exist exactly for live saves,
/// autosave slots exactly where a marker is set, and no holding spot is
/// occupied.
pub open spec fn disk_ok<T>(a: App, d: Map<Key, T>) -> bool {
    &&& forall|ci: int, p: int|
        0 <= ci < a.categories@.len() && 0 <= p < a.categories@[ci].paths@.len()
            ==> d.contains_key(Key::Source(#[trigger] a.categories@[ci].paths@[p]@))
    &&& forall|cat: Seq<char>, p: int, r: int|
        #[trigger] d.contains_key(Key::Slot(cat, p, r)) <==> slot_live(a, cat, p, r)
    &&& forall|cat: Seq<char>, p: int|
        #[trigger] d.contains_key(Key::Auto(cat, p)) <==> auto_live(a, cat, p)
    &&& forall|cat: Seq<char>, p: int| !(#[trigger] d.contains_key(Key::Holding(cat, p)))
}

/// Keys the `save` plan writes: the fresh numbered slots of the first `p`
/// ordinals.
pub open spec fn save_writes(cat: Seq<char>, idx: int, p: int, k: Key) -> bool {
    match k {
        Key::Slot(c2, q, i2) => c2 == cat && i2 == idx && 1 <= q <= p,
        _ => false,
    }
}

/// Effect of the `save` plan on a filesystem where the sources exist and
/// the fresh slots do not: it runs without failing, fills each fresh slot
/// with the corresponding source tree, and touches nothing else.
pub proof fn lemma_save_effect<T>(
    d: Map<Key, T>,
    cat: Seq<char>,
    paths: Seq<Seq<char>>,
    idx: int,
    p: int,
)
    requires
        0 <= p <= paths.len(),
        forall|q: int| 0 <= q < p ==> d.contains_key(Key::Source(#[trigger] paths[q])),
        forall|q: int| 1 <= q <= p ==> !(#[trigger] d.contains_key(Key::Slot(cat, q, idx))),
    ensures
        ops_valid(d, save_kops(cat, paths, idx, p)),
        forall|q: int|
            1 <= q <= p ==> #[trigger] apply_ops(d, save_kops(cat, paths, idx, p)).contains_key(
                Key::Slot(cat, q, idx),
            ) && apply_ops(d, save_kops(cat, paths, idx, p))[Key::Slot(cat, q, idx)] == d[Key::Source(
                paths[q - 1],
            )],
        forall|k: Key|
            #![trigger save_writes(cat, idx, p, k)]
            !save_writes(cat, idx, p, k) ==> ((apply_ops(
                d,
                save_kops(cat, paths, idx, p),
            ).contains_key(k) <==> d.contains_key(k)) && (d.contains_key(k) ==> apply_ops(
                d,
                save_kops(cat, paths, idx, p),
            )[k] == d[k])),
    decreases p,
{
    if p > 0 {
        lemma_save_effect(d, cat, paths, idx, p - 1);
        let prev = save_kops(cat, paths, idx, p - 1);
        let op = KOp::Copy(Key::Source(paths[p - 1]), Key::Slot(cat, p, idx));
        let d1 = apply_ops(d, prev);
        lemma_apply_concat(d, prev, seq![op]);
        lemma_valid_concat(d, prev, seq![op]);
        lemma_apply_one(d1, op);
        assert(!save_writes(cat, idx, p - 1, Key::Source(paths[p - 1])));
        assert(!save_writes(cat, idx, p - 1, Key::Slot(cat, p, idx)));
        assert(apply_ops(d, save_kops(cat, paths, idx, p - 1)).contains_key(
            Key::Source(paths[p - 1]),
        ) <==> d.contains_key(Key::Source(paths[p - 1])));
        assert(apply_ops(d, save_kops(cat, paths, idx, p - 1)).contains_key(
            Key::Slot(cat, p, idx),
        ) <==> d.contains_key(Key::Slot(cat, p, idx)));
        assert(d1.contains_key(Key::Source(paths[p - 1])));
        assert(!d1.contains_key(Key::Slot(cat, p, idx)));
        assert(apply_ops(d, save_kops(cat, paths, idx, p - 1))[Key::Source(paths[p - 1])]
            == d[Key::Source(paths[p - 1])]);
        assert(op_enabled(d1, op));
        let d2 = apply_ops(d, save_kops(cat, paths, idx, p));
        assert(d2 == d1.insert(Key::Slot(cat, p, idx), d1[Key::Source(paths[p - 1])]));
        assert forall|q: int| 1 <= q <= p implies d2.contains_key(Key::Slot(cat, q, idx))
            && d2[Key::Slot(cat, q, idx)] == d[Key::Source(paths[q - 1])] by {
            if q < p {
                assert(d1.contains_key(Key::Slot(cat, q, idx)));
            }
        }
        assert forall|k: Key| #![trigger save_writes(cat, idx, p, k)]
            !save_writes(cat, idx, p, k) implies ((apply_ops(
            d,
            save_kops(cat, paths, idx, p),
        ).contains_key(k) <==> d.contains_key(k)) && (d.contains_key(k) ==> apply_ops(
            d,
            save_kops(cat, paths, idx, p),
        )[k] == d[k])) by {
            assert(!save_writes(cat, idx, p - 1, k));
            assert(k != Key::Slot(cat, p, idx));
            assert(apply_ops(d, save_kops(cat, paths, idx, p - 1)).contains_key(k)
                <==> d.contains_key(k));
            assert(d.contains_key(k) ==> apply_ops(d, save_kops(cat, paths, idx, p - 1))[k]
                == d[k]);
        }
    }
}

/// Keys the autosave eviction plan writes: the autosave slots of the
/// first `p` ordinals.
pub open spec fn auto_writes(cat: Seq<char>, p: int, k: Key) -> bool {
    match k {
        Key::Auto(c2, q) => c2 == cat && 1 <= q <= p,
        _ => false,
    }
}

/// Effect of evicting the autosave slots of the first `p` ordinals, where
/// they all exist: it runs without failing, deletes exactly them, and
/// touches nothing else.
pub proof fn lemma_evict_effect<T>(d: Map<Key, T>, cat: Seq<char>, p: int)
    requires
        forall|q: int| 1 <= q <= p ==> #[trigger] d.contains_key(Key::Auto(cat, q)),
    ensures
        ops_valid(d, evict_kops(cat, p)),
        forall|q: int|
            1 <= q <= p ==> !apply_ops(d, evict_kops(cat, p)).contains_key(
                Key::Auto(cat, q),
            ),
        forall|k: Key|
            #![trigger auto_writes(cat, p, k)]
            !auto_writes(cat, p, k) ==> ((apply_ops(d, evict_kops(cat, p)).contains_key(
                k,
            ) <==> d.contains_key(k)) && (d.contains_key(k) ==> apply_ops(d, evict_kops(cat, p))[k]
                == d[k])),
    decreases p,
{
    if p > 0 {
        lemma_evict_effect(d, cat, p - 1);
        let prev = evict_kops(cat, p - 1);
        let op = KOp::Rem(Key::Auto(cat, p));
        let d1 = apply_ops(d, prev);
        lemma_apply_concat(d, prev, seq![op]);
        lemma_valid_concat(d, prev, seq![op]);
        lemma_apply_one(d1, op);
        assert(!auto_writes(cat, p - 1, Key::Auto(cat, p)));
        assert(apply_ops(d, evict_kops(cat, p - 1)).contains_key(Key::Auto(cat, p))
            <==> d.contains_key(Key::Auto(cat, p)));
        assert(d1.contains_key(Key::Auto(cat, p)));
        assert(op_enabled(d1, op));
        let d2 = apply_ops(d, evict_kops(cat, p));
        assert(d2 == d1.remove(Key::Auto(cat, p)));
        assert forall|q: int| 1 <= q <= p implies !d2.contains_key(Key::Auto(cat, q)) by {
            if q < p {
                assert(!d1.contains_key(Key::Auto(cat, q)));
            }
        }
        assert forall|k: Key|
            !auto_writes(cat, p, k) implies ((d2.contains_key(k) <==> d.contains_key(k)) && (
            d.contains_key(k) ==> d2[k] == d[k])) by {
            assert(!auto_writes(cat, p - 1, k));
            assert(k != Key::Auto(cat, p));
            assert(apply_ops(d, evict_kops(cat, p - 1)).contains_key(k) <==> d.contains_key(k));
            assert(d.contains_key(k) ==> apply_ops(d, evict_kops(cat, p - 1))[k] == d[k]);
        }
    }
}

/// Does `x` stand among the first `p` paths?
pub open spec fn among(paths: Seq<Seq<char>>, p: int, x: Seq<char>) -> bool {
    exists|q: int| 0 <= q < p && #[trigger] paths[q] == x
}

/// Keys the main part of the `load` plan writes: the autosave slots and
/// the source trees of the first `p` ordinals.
pub open spec fn load_main_writes(cat: Seq<char>, paths: Seq<Seq<char>>, p: int, k: Key) -> bool {
    match k {
        Key::Auto(c2, q) => c2 == cat && 1 <= q <= p,
        Key::Source(x) => among(paths, p, x),
        _ => false,
    }
}

/// Effect of the main part of the `load` plan, on a filesystem where the
/// sources and the chosen version's slots exist and the autosave slots do
/// not: it runs without failing, parks each source tree in the autosave
/// slot, copies the version into the source location, and touches nothing
/// else.
pub proof fn lemma_load_main_effect<T>(
    d: Map<Key, T>,
    cat: Seq<char>,
    paths: Seq<Seq<char>>,
    idx: int,
    p: int,
)
    requires
        0 <= p <= paths.len(),
        forall|q1: int, q2: int| 0 <= q1 < q2 < p ==> #[trigger] paths[q1] != #[trigger] paths[q2],
        forall|q: int| 0 <= q < p ==> d.contains_key(Key::Source(#[trigger] paths[q])),
        forall|q: int| 1 <= q <= p ==> !(#[trigger] d.contains_key(Key::Auto(cat, q))),
        forall|q: int| 1 <= q <= p ==> #[trigger] d.contains_key(Key::Slot(cat, q, idx)),
    ensures
        ops_valid(d, load_main_kops(cat, paths, idx, p)),
        forall|q: int|
            1 <= q <= p ==> #[trigger] apply_ops(d, load_main_kops(cat, paths, idx, p)).contains_key(
                Key::Auto(cat, q),
            ) && apply_ops(d, load_main_kops(cat, paths, idx, p))[Key::Auto(cat, q)] == d[Key::Source(
                paths[q - 1],
            )],
        forall|q: int|
            1 <= q <= p ==> #[trigger] apply_ops(d, load_main_kops(cat, paths, idx, p)).contains_key(
                Key::Source(#[trigger] paths[q - 1]),
            ) && apply_ops(d, load_main_kops(cat, paths, idx, p))[Key::Source(paths[q - 1])]
                == d[Key::Slot(cat, q, idx)],
        forall|k: Key|
            #![trigger load_main_writes(cat, paths, p, k)]
            !load_main_writes(cat, paths, p, k) ==> ((apply_ops(
                d,
                load_main_kops(cat, paths, idx, p),
            ).contains_key(k) <==> d.contains_key(k)) && (d.contains_key(k) ==> apply_ops(
                d,
                load_main_kops(cat, paths, idx, p),
            )[k] == d[k])),
    decreases p,
{
    if p > 0 {
        lemma_load_main_effect(d, cat, paths, idx, p - 1);
        let prev = load_main_kops(cat, paths, idx, p - 1);
        let op1 = KOp::Ren(Key::Source(paths[p - 1]), Key::Auto(cat, p));
        let op2 = KOp::Copy(Key::Slot(cat, p, idx), Key::Source(paths[p - 1]));
        let d1 = apply_ops(d, prev);
        lemma_apply_concat(d, prev, seq![op1, op2]);
        lemma_valid_concat(d, prev, seq![op1, op2]);
        lemma_apply_two(d1, op1, op2);
        assert(!among(paths, p - 1, paths[p - 1]));
        assert(!load_main_writes(cat, paths, p - 1, Key::Source(paths[p - 1])));
        assert(!load_main_writes(cat, paths, p - 1, Key::Auto(cat, p)));
        assert(!load_main_writes(cat, paths, p - 1, Key::Slot(cat, p, idx)));
        assert(apply_ops(d, load_main_kops(cat, paths, idx, p - 1)).contains_key(
            Key::Source(paths[p - 1]),
        ) <==> d.contains_key(Key::Source(paths[p - 1])));
        assert(apply_ops(d, load_main_kops(cat, paths, idx, p - 1)).contains_key(
            Key::Auto(cat, p),
        ) <==> d.contains_key(Key::Auto(cat, p)));
        assert(apply_ops(d, load_main_kops(cat, paths, idx, p - 1)).contains_key(
            Key::Slot(cat, p, idx),
        ) <==> d.contains_key(Key::Slot(cat, p, idx)));
        assert(d1.contains_key(Key::Source(paths[p - 1])));
        assert(apply_ops(d, load_main_kops(cat, paths, idx, p - 1))[Key::Source(paths[p - 1])]
            == d[Key::Source(paths[p - 1])]);
        assert(!d1.contains_key(Key::Auto(cat, p)));
        assert(d1.contains_key(Key::Slot(cat, p, idx)));
        assert(apply_ops(d, load_main_kops(cat, paths, idx, p - 1))[Key::Slot(cat, p, idx)]
            == d[Key::Slot(cat, p, idx)]);
        assert(op_enabled(d1, op1));
        let d1a = apply_op(d1, op1);
        assert(d1a == d1.remove(Key::Source(paths[p - 1])).insert(
            Key::Auto(cat, p),
            d1[Key::Source(paths[p - 1])],
        ));
        assert(op_enabled(d1a, op2));
        let d2 = apply_ops(d, load_main_kops(cat, paths, idx, p));
        assert(d2 == d1a.insert(Key::Source(paths[p - 1]), d1a[Key::Slot(cat, p, idx)]));
        assert forall|q: int|
            1 <= q <= p implies d2.contains_key(Key::Auto(cat, q)) && d2[Key::Auto(
            cat,
            q,
        )] == d[Key::Source(paths[q - 1])] by {
            if q < p {
                assert(d1.contains_key(Key::Auto(cat, q)));
                assert(d1[Key::Auto(cat, q)] == d[Key::Source(paths[q - 1])]);
            }
        }
        assert forall|q: int|
            1 <= q <= p implies d2.contains_key(Key::Source(#[trigger] paths[q - 1]))
            && d2[Key::Source(paths[q - 1])] == d[Key::Slot(cat, q, idx)] by {
            if q < p {
                assert(paths[q - 1] != paths[p - 1]);
                assert(d1.contains_key(Key::Source(paths[q - 1])));
                assert(d1[Key::Source(paths[q - 1])] == d[Key::Slot(cat, q, idx)]);
            }
        }
        assert forall|k: Key|
            !load_main_writes(cat, paths, p, k) implies ((#[trigger] d2.contains_key(k)
            <==> d.contains_key(k)) && (d.contains_key(k) ==> d2[k] == d[k])) by {
            match k {
                Key::Source(x) => {
                    if among(paths, p - 1, x) {
                        let q = choose|q: int| 0 <= q < p - 1 && #[trigger] paths[q] == x;
                        assert(0 <= q < p && paths[q] == x);
                        assert(false);
                    }
                    if x == paths[p - 1] {
                        assert(0 <= p - 1 < p && paths[p - 1] == x);
                        assert(among(paths, p, x));
                        assert(false);
                    }
                },
                _ => {},
            }
            assert(!load_main_writes(cat, paths, p - 1, k));
            assert(k != Key::Source(paths[p - 1]));
            assert(k != Key::Auto(cat, p));
            assert(apply_ops(d, load_main_kops(cat, paths, idx, p - 1)).contains_key(k)
                <==> d.contains_key(k));
            assert(d.contains_key(k) ==> apply_ops(d, load_main_kops(cat, paths, idx, p - 1))[k]
                == d[k]);
        }
    }
}

/// Keys the rotation plan writes: the autosave slots, the source trees,
/// and the holding spots of the first `p` ordinals.
pub open spec fn rotate_writes(cat: Seq<char>, paths: Seq<Seq<char>>, p: int, k: Key) -> bool {
    match k {
        Key::Auto(c2, q) => c2 == cat && 1 <= q <= p,
        Key::Source(x) => among(paths, p, x),
        Key::Holding(c2, q) => c2 == cat && 1 <= q <= p,
        _ => false,
    }
}

/// Effect of the rotation plan, on a filesystem where the sources and the
/// autosave slots exist and the holding spots are clear: it runs without
/// failing, swaps each source tree with its autosave slot, leaves the
/// holding spots clear, and touches nothing else.
pub proof fn lemma_rotate_effect<T>(d: Map<Key, T>, cat: Seq<char>, paths: Seq<Seq<char>>, p: int)
    requires
        0 <= p <= paths.len(),
        forall|q1: int, q2: int| 0 <= q1 < q2 < p ==> #[trigger] paths[q1] != #[trigger] paths[q2],
        forall|q: int| 0 <= q < p ==> d.contains_key(Key::Source(#[trigger] paths[q])),
        forall|q: int| 1 <= q <= p ==> #[trigger] d.contains_key(Key::Auto(cat, q)),
        forall|q: int| 1 <= q <= p ==> !(#[trigger] d.contains_key(Key::Holding(cat, q))),
    ensures
        ops_valid(d, rotate_kops(cat, paths, p)),
        forall|q: int|
            1 <= q <= p ==> #[trigger] apply_ops(d, rotate_kops(cat, paths, p)).contains_key(
                Key::Auto(cat, q),
            ) && apply_ops(d, rotate_kops(cat, paths, p))[Key::Auto(cat, q)] == d[Key::Source(
                paths[q - 1],
            )],
        forall|q: int|
            1 <= q <= p ==> #[trigger] apply_ops(d, rotate_kops(cat, paths, p)).contains_key(
                Key::Source(#[trigger] paths[q - 1]),
            ) && apply_ops(d, rotate_kops(cat, paths, p))[Key::Source(paths[q - 1])] == d[Key::Auto(
                cat,
                q,
            )],
        forall|q: int|
            1 <= q <= p ==> !apply_ops(d, rotate_kops(cat, paths, p)).contains_key(
                Key::Holding(cat, q),
            ),
        forall|k: Key|
            #![trigger rotate_writes(cat, paths, p, k)]
            !rotate_writes(cat, paths, p, k) ==> ((apply_ops(
                d,
                rotate_kops(cat, paths, p),
            ).contains_key(k) <==> d.contains_key(k)) && (d.contains_key(k) ==> apply_ops(
                d,
                rotate_kops(cat, paths, p),
            )[k] == d[k])),
    decreases p,
{
    if p > 0 {
        lemma_rotate_effect(d, cat, paths, p - 1);
        let prev = rotate_kops(cat, paths, p - 1);
        let op1 = KOp::Ren(Key::Auto(cat, p), Key::Holding(cat, p));
        let op2 = KOp::Ren(Key::Source(paths[p - 1]), Key::Auto(cat, p));
        let op3 = KOp::Ren(Key::Holding(cat, p), Key::Source(paths[p - 1]));
        let d1 = apply_ops(d, prev);
        lemma_apply_concat(d, prev, seq![op1, op2, op3]);
        lemma_valid_concat(d, prev, seq![op1, op2, op3]);
        lemma_apply_three(d1, op1, op2, op3);
        assert(!among(paths, p - 1, paths[p - 1]));
        assert(!rotate_writes(cat, paths, p - 1, Key::Auto(cat, p)));
        assert(!rotate_writes(cat, paths, p - 1, Key::Holding(cat, p)));
        assert(!rotate_writes(cat, paths, p - 1, Key::Source(paths[p - 1])));
        assert(apply_ops(d, rotate_kops(cat, paths, p - 1)).contains_key(Key::Auto(cat, p))
            <==> d.contains_key(Key::Auto(cat, p)));
        assert(apply_ops(d, rotate_kops(cat, paths, p - 1)).contains_key(Key::Holding(cat, p))
            <==> d.contains_key(Key::Holding(cat, p)));
        assert(apply_ops(d, rotate_kops(cat, paths, p - 1)).contains_key(
            Key::Source(paths[p - 1]),
        ) <==> d.contains_key(Key::Source(paths[p - 1])));
        assert(d1.contains_key(Key::Auto(cat, p)));
        assert(apply_ops(d, rotate_kops(cat, paths, p - 1))[Key::Auto(cat, p)]
            == d[Key::Auto(cat, p)]);
        assert(!d1.contains_key(Key::Holding(cat, p)));
        assert(d1.contains_key(Key::Source(paths[p - 1])));
        assert(apply_ops(d, rotate_kops(cat, paths, p - 1))[Key::Source(paths[p - 1])]
            == d[Key::Source(paths[p - 1])]);
        assert(op_enabled(d1, op1));
        let da = apply_op(d1, op1);
        assert(da == d1.remove(Key::Auto(cat, p)).insert(Key::Holding(cat, p), d1[Key::Auto(cat, p)]));
        assert(op_enabled(da, op2));
        let db = apply_op(da, op2);
        assert(db == da.remove(Key::Source(paths[p - 1])).insert(
            Key::Auto(cat, p),
            da[Key::Source(paths[p - 1])],
        ));
        assert(op_enabled(db, op3));
        let d2 = apply_ops(d, rotate_kops(cat, paths, p));
        assert(d2 == db.remove(Key::Holding(cat, p)).insert(
            Key::Source(paths[p - 1]),
            db[Key::Holding(cat, p)],
        ));
        assert forall|q: int|
            1 <= q <= p implies d2.contains_key(Key::Auto(cat, q)) && d2[Key::Auto(
            cat,
            q,
        )] == d[Key::Source(paths[q - 1])] by {
            if q < p {
                assert(d1.contains_key(Key::Auto(cat, q)));
                assert(d1[Key::Auto(cat, q)] == d[Key::Source(paths[q - 1])]);
            }
        }
        assert forall|q: int|
            1 <= q <= p implies d2.contains_key(Key::Source(#[trigger] paths[q - 1]))
            && d2[Key::Source(paths[q - 1])] == d[Key::Auto(cat, q)] by {
            if q < p {
                assert(paths[q - 1] != paths[p - 1]);
                assert(d1.contains_key(Key::Source(paths[q - 1])));
                assert(d1[Key::Source(paths[q - 1])] == d[Key::Auto(cat, q)]);
            }
        }
        assert forall|k: Key|
            !rotate_writes(cat, paths, p, k) implies ((#[trigger] d2.contains_key(k)
            <==> d.contains_key(k)) && (d.contains_key(k) ==> d2[k] == d[k])) by {
            match k {
                Key::Source(x) => {
                    if among(paths, p - 1, x) {
                        let q = choose|q: int| 0 <= q < p - 1 && #[trigger] paths[q] == x;
                        assert(0 <= q < p && paths[q] == x);
                        assert(false);
                    }
                    if x == paths[p - 1] {
                        assert(0 <= p - 1 < p && paths[p - 1] == x);
                        assert(among(paths, p, x));
                        assert(false);
                    }
                },
                _ => {},
            }
            assert(!rotate_writes(cat, paths, p - 1, k));
            assert(k != Key::Source(paths[p - 1]));
            assert(k != Key::Auto(cat, p));
            assert(k != Key::Holding(cat, p));
            assert(apply_ops(d, rotate_kops(cat, paths, p - 1)).contains_key(k)
                <==> d.contains_key(k));
            assert(d.contains_key(k) ==> apply_ops(d, rotate_kops(cat, paths, p - 1))[k] == d[k]);
        }
    }
}



/// Effect of the `remove` plan, on a filesystem where the doomed slots
/// exist: it runs without failing, deletes exactly them, and touches
/// nothing else.  The written keys are the same as for `save`.
pub proof fn lemma_remove_effect<T>(d: Map<Key, T>, cat: Seq<char>, idx: int, p: int)
    requires
        forall|q: int| 1 <= q <= p ==> #[trigger] d.contains_key(Key::Slot(cat, q, idx)),
    ensures
        ops_valid(d, remove_kops(cat, idx, p)),
        forall|q: int|
            1 <= q <= p ==> !apply_ops(d, remove_kops(cat, idx, p)).contains_key(
                Key::Slot(cat, q, idx),
            ),
        forall|k: Key|
            #![trigger save_writes(cat, idx, p, k)]
            !save_writes(cat, idx, p, k) ==> ((apply_ops(d, remove_kops(cat, idx, p)).contains_key(
                k,
            ) <==> d.contains_key(k)) && (d.contains_key(k) ==> apply_ops(
                d,
                remove_kops(cat, idx, p),
            )[k] == d[k])),
    decreases p,
{
    if p > 0 {
        lemma_remove_effect(d, cat, idx, p - 1);
        let prev = remove_kops(cat, idx, p - 1);
        let op = KOp::Rem(Key::Slot(cat, p, idx));
        let d1 = apply_ops(d, prev);
        lemma_apply_concat(d, prev, seq![op]);
        lemma_valid_concat(d, prev, seq![op]);
        lemma_apply_one(d1, op);
        assert(!save_writes(cat, idx, p - 1, Key::Slot(cat, p, idx)));
        assert(apply_ops(d, remove_kops(cat, idx, p - 1)).contains_key(Key::Slot(cat, p, idx))
            <==> d.contains_key(Key::Slot(cat, p, idx)));
        assert(op_enabled(d1, op));
        let d2 = apply_ops(d, remove_kops(cat, idx, p));
        assert(d2 == d1.remove(Key::Slot(cat, p, idx)));
        assert forall|q: int|
            1 <= q <= p implies !d2.contains_key(Key::Slot(cat, q, idx)) by {
            if q < p {
                assert(!d1.contains_key(Key::Slot(cat, q, idx)));
            }
        }
        assert forall|k: Key| #![trigger save_writes(cat, idx, p, k)]
            !save_writes(cat, idx, p, k) implies ((apply_ops(
            d,
            remove_kops(cat, idx, p),
        ).contains_key(k) <==> d.contains_key(k)) && (d.contains_key(k) ==> apply_ops(
            d,
            remove_kops(cat, idx, p),
        )[k] == d[k])) by {
            assert(!save_writes(cat, idx, p - 1, k));
            assert(k != Key::Slot(cat, p, idx));
            assert(apply_ops(d, remove_kops(cat, idx, p - 1)).contains_key(k)
                <==> d.contains_key(k));
            assert(d.contains_key(k) ==> apply_ops(d, remove_kops(cat, idx, p - 1))[k] == d[k]);
        }
    }
}

/// Keys the `overwrite` plan writes: the autosave slots and the refreshed
/// numbered slots of the first `p` ordinals.
pub open spec fn overwrite_writes(cat: Seq<char>, idx: int, p: int, k: Key) -> bool {
    match k {
        Key::Auto(c2, q) => c2 == cat && 1 <= q <= p,
        Key::Slot(c2, q, i2) => c2 == cat && i2 == idx && 1 <= q <= p,
        _ => false,
    }
}

/// Effect of the `overwrite` plan, on a filesystem where the sources and
/// the refreshed slots exist and the autosave slots exist exactly when
/// `marker` says so: it runs without failing, parks each slot's old
/// content in the autosave slot, recaptures the slot from the live tree,
/// and touches nothing else.
pub proof fn lemma_overwrite_effect<T>(
    d: Map<Key, T>,
    cat: Seq<char>,
    paths: Seq<Seq<char>>,
    idx: int,
    marker: bool,
    p: int,
)
    requires
        0 <= p <= paths.len(),
        forall|q: int| 0 <= q < p ==> d.contains_key(Key::Source(#[trigger] paths[q])),
        forall|q: int| 1 <= q <= p ==> #[trigger] d.contains_key(Key::Slot(cat, q, idx)),
        forall|q: int| 1 <= q <= p ==> (#[trigger] d.contains_key(Key::Auto(cat, q)) <==> marker),
    ensures
        ops_valid(d, overwrite_kops(cat, paths, idx, marker, p)),
        forall|q: int|
            1 <= q <= p ==> #[trigger] apply_ops(d, overwrite_kops(cat, paths, idx, marker, p)).contains_key(
                Key::Auto(cat, q),
            ) && apply_ops(d, overwrite_kops(cat, paths, idx, marker, p))[Key::Auto(cat, q)]
                == d[Key::Slot(cat, q, idx)],
        forall|q: int|
            1 <= q <= p ==> #[trigger] apply_ops(d, overwrite_kops(cat, paths, idx, marker, p)).contains_key(
                Key::Slot(cat, q, idx),
            ) && apply_ops(d, overwrite_kops(cat, paths, idx, marker, p))[Key::Slot(cat, q, idx)]
                == d[Key::Source(paths[q - 1])],
        forall|k: Key|
            #![trigger overwrite_writes(cat, idx, p, k)]
            !overwrite_writes(cat, idx, p, k) ==> ((apply_ops(
                d,
                overwrite_kops(cat, paths, idx, marker, p),
            ).contains_key(k) <==> d.contains_key(k)) && (d.contains_key(k) ==> apply_ops(
                d,
                overwrite_kops(cat, paths, idx, marker, p),
            )[k] == d[k])),
    decreases p,
{
    if p > 0 {
        lemma_overwrite_effect(d, cat, paths, idx, marker, p - 1);
        let prev = overwrite_kops(cat, paths, idx, marker, p - 1);
        let rem = KOp::Rem(Key::Auto(cat, p));
        let ren = KOp::Ren(Key::Slot(cat, p, idx), Key::Auto(cat, p));
        let cop = KOp::Copy(Key::Source(paths[p - 1]), Key::Slot(cat, p, idx));
        let d1 = apply_ops(d, prev);
        assert(!overwrite_writes(cat, idx, p - 1, Key::Auto(cat, p)));
        assert(!overwrite_writes(cat, idx, p - 1, Key::Slot(cat, p, idx)));
        assert(!overwrite_writes(cat, idx, p - 1, Key::Source(paths[p - 1])));
        assert(apply_ops(d, overwrite_kops(cat, paths, idx, marker, p - 1)).contains_key(
            Key::Auto(cat, p),
        ) <==> d.contains_key(Key::Auto(cat, p)));
        assert(apply_ops(d, overwrite_kops(cat, paths, idx, marker, p - 1)).contains_key(
            Key::Slot(cat, p, idx),
        ) <==> d.contains_key(Key::Slot(cat, p, idx)));
        assert(apply_ops(d, overwrite_kops(cat, paths, idx, marker, p - 1)).contains_key(
            Key::Source(paths[p - 1]),
        ) <==> d.contains_key(Key::Source(paths[p - 1])));
        assert(apply_ops(d, overwrite_kops(cat, paths, idx, marker, p - 1))[Key::Slot(cat, p, idx)]
            == d[Key::Slot(cat, p, idx)]);
        assert(apply_ops(d, overwrite_kops(cat, paths, idx, marker, p - 1))[Key::Source(
            paths[p - 1],
        )] == d[Key::Source(paths[p - 1])]);
        let d2 = apply_ops(d, overwrite_kops(cat, paths, idx, marker, p));
        if marker {
            assert(overwrite_kops(cat, paths, idx, marker, p) =~= prev + seq![rem, ren, cop]);
            lemma_apply_concat(d, prev, seq![rem, ren, cop]);
            lemma_valid_concat(d, prev, seq![rem, ren, cop]);
            lemma_apply_three(d1, rem, ren, cop);
            assert(op_enabled(d1, rem));
            let da = apply_op(d1, rem);
            assert(da == d1.remove(Key::Auto(cat, p)));
            assert(op_enabled(da, ren));
            let db = apply_op(da, ren);
            assert(db == da.remove(Key::Slot(cat, p, idx)).insert(
                Key::Auto(cat, p),
                da[Key::Slot(cat, p, idx)],
            ));
            assert(op_enabled(db, cop));
            assert(d2 == db.insert(Key::Slot(cat, p, idx), db[Key::Source(paths[p - 1])]));
        } else {
            assert(overwrite_kops(cat, paths, idx, marker, p) =~= prev + seq![ren, cop]);
            lemma_apply_concat(d, prev, seq![ren, cop]);
            lemma_valid_concat(d, prev, seq![ren, cop]);
            lemma_apply_two(d1, ren, cop);
            assert(op_enabled(d1, ren));
            let db = apply_op(d1, ren);
            assert(db == d1.remove(Key::Slot(cat, p, idx)).insert(
                Key::Auto(cat, p),
                d1[Key::Slot(cat, p, idx)],
            ));
            assert(op_enabled(db, cop));
            assert(d2 == db.insert(Key::Slot(cat, p, idx), db[Key::Source(paths[p - 1])]));
        }
        assert forall|q: int|
            1 <= q <= p implies apply_ops(d, overwrite_kops(cat, paths, idx, marker, p)).contains_key(
            Key::Auto(cat, q),
        ) && apply_ops(d, overwrite_kops(cat, paths, idx, marker, p))[Key::Auto(cat, q)]
            == d[Key::Slot(cat, q, idx)] by {
            if q < p {
                assert(apply_ops(d, overwrite_kops(cat, paths, idx, marker, p - 1)).contains_key(
                    Key::Auto(cat, q),
                ));
                assert(apply_ops(d, overwrite_kops(cat, paths, idx, marker, p - 1))[Key::Auto(
                    cat,
                    q,
                )] == d[Key::Slot(cat, q, idx)]);
                assert(d2.contains_key(Key::Auto(cat, q)));
                assert(d2[Key::Auto(cat, q)] == d1[Key::Auto(cat, q)]);
            } else {
                assert(d2.contains_key(Key::Auto(cat, p)));
            }
        }
        assert forall|q: int|
            1 <= q <= p implies apply_ops(d, overwrite_kops(cat, paths, idx, marker, p)).contains_key(
            Key::Slot(cat, q, idx),
        ) && apply_ops(d, overwrite_kops(cat, paths, idx, marker, p))[Key::Slot(cat, q, idx)]
            == d[Key::Source(paths[q - 1])] by {
            if q < p {
                assert(apply_ops(d, overwrite_kops(cat, paths, idx, marker, p - 1)).contains_key(
                    Key::Slot(cat, q, idx),
                ));
                assert(apply_ops(d, overwrite_kops(cat, paths, idx, marker, p - 1))[Key::Slot(
                    cat,
                    q,
                    idx,
                )] == d[Key::Source(paths[q - 1])]);
                assert(d2.contains_key(Key::Slot(cat, q, idx)));
                assert(d2[Key::Slot(cat, q, idx)] == d1[Key::Slot(cat, q, idx)]);
            } else {
                assert(d2.contains_key(Key::Slot(cat, p, idx)));
            }
        }
        assert forall|k: Key| #![trigger overwrite_writes(cat, idx, p, k)]
            !overwrite_writes(cat, idx, p, k) implies ((d2.contains_key(k) <==> d.contains_key(k))
            && (d.contains_key(k) ==> d2[k] == d[k])) by {
            assert(!overwrite_writes(cat, idx, p - 1, k));
            assert(k != Key::Auto(cat, p));
            assert(k != Key::Slot(cat, p, idx));
            assert(apply_ops(d, overwrite_kops(cat, paths, idx, marker, p - 1)).contains_key(k)
                <==> d.contains_key(k));
            assert(d.contains_key(k) ==> apply_ops(d, overwrite_kops(cat, paths, idx, marker, p - 1))[k]
                == d[k]);
        }
    }
}

/// Is `i` among the first `kk` entries of `idxs`?
pub open spec fn among_int(idxs: Seq<int>, kk: int, i: int) -> bool {
    exists|j: int| 0 <= j < kk && #[trigger] idxs[j] == i
}

/// Keys the slot-deletion part of the `delete` plan writes: every
/// numbered slot of the first `kk` saves.
pub open spec fn delete_writes(cat: Seq<char>, idxs: Seq<int>, kk: int, p: int, k: Key) -> bool {
    match k {
        Key::Slot(c2, q, i2) => c2 == cat && 1 <= q <= p && among_int(idxs, kk, i2),
        _ => false,
    }
}

/// Effect of deleting the numbered slots of the first `kk` saves, where
/// they all exist and the real indices are pairwise distinct: it runs
/// without failing, deletes exactly them, and touches nothing else.
pub proof fn lemma_delete_saves_effect<T>(
    d: Map<Key, T>,
    cat: Seq<char>,
    idxs: Seq<int>,
    p: int,
    kk: int,
)
    requires
        0 <= kk <= idxs.len(),
        forall|j1: int, j2: int| 0 <= j1 < j2 < kk ==> #[trigger] idxs[j1] != #[trigger] idxs[j2],
        forall|j: int, q: int|
            0 <= j < kk && 1 <= q <= p ==> #[trigger] d.contains_key(Key::Slot(cat, q, idxs[j])),
    ensures
        ops_valid(d, delete_saves_kops(cat, idxs, p, kk)),
        forall|j: int, q: int|
            0 <= j < kk && 1 <= q <= p ==> !(#[trigger] apply_ops(d, delete_saves_kops(cat, idxs, p, kk)).contains_key(
                Key::Slot(cat, q, idxs[j]),
            )),
        forall|k: Key|
            #![trigger delete_writes(cat, idxs, kk, p, k)]
            !delete_writes(cat, idxs, kk, p, k) ==> ((apply_ops(
                d,
                delete_saves_kops(cat, idxs, p, kk),
            ).contains_key(k) <==> d.contains_key(k)) && (d.contains_key(k) ==> apply_ops(
                d,
                delete_saves_kops(cat, idxs, p, kk),
            )[k] == d[k])),
    decreases kk,
{
    if kk > 0 {
        lemma_delete_saves_effect(d, cat, idxs, p, kk - 1);
        let prev = delete_saves_kops(cat, idxs, p, kk - 1);
        let d1 = apply_ops(d, prev);
        lemma_apply_concat(d, prev, remove_kops(cat, idxs[kk - 1], p));
        lemma_valid_concat(d, prev, remove_kops(cat, idxs[kk - 1], p));
        assert forall|q: int|
            1 <= q <= p implies #[trigger] d1.contains_key(Key::Slot(cat, q, idxs[kk - 1])) by {
            assert(!among_int(idxs, kk - 1, idxs[kk - 1])) by {
                if among_int(idxs, kk - 1, idxs[kk - 1]) {
                    let j = choose|j: int| 0 <= j < kk - 1 && #[trigger] idxs[j] == idxs[kk - 1];
                    assert(false);
                }
            }
            assert(!delete_writes(cat, idxs, kk - 1, p, Key::Slot(cat, q, idxs[kk - 1])));
            assert(apply_ops(d, delete_saves_kops(cat, idxs, p, kk - 1)).contains_key(
                Key::Slot(cat, q, idxs[kk - 1]),
            ) <==> d.contains_key(Key::Slot(cat, q, idxs[kk - 1])));
        }
        lemma_remove_effect(d1, cat, idxs[kk - 1], p);
        let d2 = apply_ops(d, delete_saves_kops(cat, idxs, p, kk));
        assert(d2 == apply_ops(d1, remove_kops(cat, idxs[kk - 1], p)));
        assert forall|j: int, q: int|
            0 <= j < kk && 1 <= q <= p implies !(#[trigger] d2.contains_key(
            Key::Slot(cat, q, idxs[j]),
        )) by {
            if j < kk - 1 {
                assert(!d1.contains_key(Key::Slot(cat, q, idxs[j])));
                assert(idxs[j] != idxs[kk - 1]);
                assert(!save_writes(cat, idxs[kk - 1], p, Key::Slot(cat, q, idxs[j])));
                assert(d2.contains_key(Key::Slot(cat, q, idxs[j])) <==> d1.contains_key(
                    Key::Slot(cat, q, idxs[j]),
                ));
            } else {
                assert(!d2.contains_key(Key::Slot(cat, q, idxs[kk - 1])));
            }
        }
        assert forall|k: Key| #![trigger delete_writes(cat, idxs, kk, p, k)]
            !delete_writes(cat, idxs, kk, p, k) implies ((d2.contains_key(k)
            <==> d.contains_key(k)) && (d.contains_key(k) ==> d2[k] == d[k])) by {
            match k {
                Key::Slot(c2, q, i2) => {
                    if among_int(idxs, kk - 1, i2) {
                        let j = choose|j: int| 0 <= j < kk - 1 && #[trigger] idxs[j] == i2;
                        assert(among_int(idxs, kk, i2));
                    }
                },
                _ => {},
            }
            assert(!delete_writes(cat, idxs, kk - 1, p, k));
            assert(!save_writes(cat, idxs[kk - 1], p, k)) by {
                match k {
                    Key::Slot(c2, q, i2) => {
                        if c2 == cat && i2 == idxs[kk - 1] && 1 <= q <= p {
                            assert(0 <= kk - 1 < kk && idxs[kk - 1] == i2);
                            assert(among_int(idxs, kk, i2));
                            assert(false);
                        }
                    },
                    _ => {},
                }
            }
            assert(apply_ops(d, delete_saves_kops(cat, idxs, p, kk - 1)).contains_key(k)
                <==> d.contains_key(k));
            assert(d.contains_key(k) ==> apply_ops(d, delete_saves_kops(cat, idxs, p, kk - 1))[k]
                == d[k]);
            assert(d2.contains_key(k) <==> d1.contains_key(k));
            assert(d1.contains_key(k) ==> d2[k] == d1[k]);
        }
    }
}

/// Keys renaming one save's slots writes: that save's numbered slots
/// under the old and the new category name, over the first `p` ordinals.
pub open spec fn rename_one_writes(
    old_cat: Seq<char>,
    new_cat: Seq<char>,
    idx: int,
    p: int,
    k: Key,
) -> bool {
    match k {
        Key::Slot(c2, q, i2) => (c2 == old_cat || c2 == new_cat) && i2 == idx && 1 <= q <= p,
        _ => false,
    }
}

/// Effect of renaming one save's numbered slots, where the old slots
/// exist and the new ones do not: it runs without failing, moves each
/// slot to the new name, and touches nothing else.
pub proof fn lemma_rename_one_effect<T>(
    d: Map<Key, T>,
    old_cat: Seq<char>,
    new_cat: Seq<char>,
    idx: int,
    p: int,
)
    requires
        forall|q: int| 1 <= q <= p ==> #[trigger] d.contains_key(Key::Slot(old_cat, q, idx)),
        forall|q: int| 1 <= q <= p ==> !(#[trigger] d.contains_key(Key::Slot(new_cat, q, idx))),
    ensures
        ops_valid(d, rename_slots_kops(old_cat, new_cat, idx, p)),
        forall|q: int|
            1 <= q <= p ==> !(#[trigger] apply_ops(
                d,
                rename_slots_kops(old_cat, new_cat, idx, p),
            ).contains_key(Key::Slot(old_cat, q, idx))),
        forall|q: int|
            1 <= q <= p ==> #[trigger] apply_ops(
                d,
                rename_slots_kops(old_cat, new_cat, idx, p),
            ).contains_key(Key::Slot(new_cat, q, idx)) && apply_ops(
                d,
                rename_slots_kops(old_cat, new_cat, idx, p),
            )[Key::Slot(new_cat, q, idx)] == d[Key::Slot(old_cat, q, idx)],
        forall|k: Key|
            #![trigger rename_one_writes(old_cat, new_cat, idx, p, k)]
            !rename_one_writes(old_cat, new_cat, idx, p, k) ==> ((apply_ops(
                d,
                rename_slots_kops(old_cat, new_cat, idx, p),
            ).contains_key(k) <==> d.contains_key(k)) && (d.contains_key(k) ==> apply_ops(
                d,
                rename_slots_kops(old_cat, new_cat, idx, p),
            )[k] == d[k])),
    decreases p,
{
    if p > 0 {
        lemma_rename_one_effect(d, old_cat, new_cat, idx, p - 1);
        let prev = rename_slots_kops(old_cat, new_cat, idx, p - 1);
        let op = KOp::Ren(Key::Slot(old_cat, p, idx), Key::Slot(new_cat, p, idx));
        let d1 = apply_ops(d, prev);
        lemma_apply_concat(d, prev, seq![op]);
        lemma_valid_concat(d, prev, seq![op]);
        lemma_apply_one(d1, op);
        assert(d.contains_key(Key::Slot(old_cat, p, idx)));
        assert(!d.contains_key(Key::Slot(new_cat, p, idx)));
        assert(old_cat != new_cat);
        assert(!rename_one_writes(old_cat, new_cat, idx, p - 1, Key::Slot(old_cat, p, idx)));
        assert(!rename_one_writes(old_cat, new_cat, idx, p - 1, Key::Slot(new_cat, p, idx)));
        assert(apply_ops(d, rename_slots_kops(old_cat, new_cat, idx, p - 1)).contains_key(
            Key::Slot(old_cat, p, idx),
        ) <==> d.contains_key(Key::Slot(old_cat, p, idx)));
        assert(apply_ops(d, rename_slots_kops(old_cat, new_cat, idx, p - 1)).contains_key(
            Key::Slot(new_cat, p, idx),
        ) <==> d.contains_key(Key::Slot(new_cat, p, idx)));
        assert(apply_ops(d, rename_slots_kops(old_cat, new_cat, idx, p - 1))[Key::Slot(
            old_cat,
            p,
            idx,
        )] == d[Key::Slot(old_cat, p, idx)]);
        assert(op_enabled(d1, op));
        let d2 = apply_ops(d, rename_slots_kops(old_cat, new_cat, idx, p));
        assert(d2 == d1.remove(Key::Slot(old_cat, p, idx)).insert(
            Key::Slot(new_cat, p, idx),
            d1[Key::Slot(old_cat, p, idx)],
        ));
        assert forall|q: int|
            1 <= q <= p implies !(#[trigger] d2.contains_key(Key::Slot(old_cat, q, idx))) by {
            if q < p {
                assert(!d1.contains_key(Key::Slot(old_cat, q, idx)));
            }
        }
        assert forall|q: int|
            1 <= q <= p implies #[trigger] d2.contains_key(Key::Slot(new_cat, q, idx))
            && d2[Key::Slot(new_cat, q, idx)] == d[Key::Slot(old_cat, q, idx)] by {
            if q < p {
                assert(apply_ops(d, rename_slots_kops(old_cat, new_cat, idx, p - 1)).contains_key(
                    Key::Slot(new_cat, q, idx),
                ));
                assert(apply_ops(d, rename_slots_kops(old_cat, new_cat, idx, p - 1))[Key::Slot(
                    new_cat,
                    q,
                    idx,
                )] == d[Key::Slot(old_cat, q, idx)]);
            }
        }
        assert forall|k: Key| #![trigger rename_one_writes(old_cat, new_cat, idx, p, k)]
            !rename_one_writes(old_cat, new_cat, idx, p, k) implies ((d2.contains_key(k)
            <==> d.contains_key(k)) && (d.contains_key(k) ==> d2[k] == d[k])) by {
            assert(!rename_one_writes(old_cat, new_cat, idx, p - 1, k));
            assert(k != Key::Slot(old_cat, p, idx));
            assert(k != Key::Slot(new_cat, p, idx));
            assert(apply_ops(d, rename_slots_kops(old_cat, new_cat, idx, p - 1)).contains_key(k)
                <==> d.contains_key(k));
            assert(d.contains_key(k) ==> apply_ops(d, rename_slots_kops(old_cat, new_cat, idx, p - 1))[k]
                == d[k]);
        }
    }
}

/// Keys renaming all saves' slots writes.
pub open spec fn rename_saves_writes(
    old_cat: Seq<char>,
    new_cat: Seq<char>,
    idxs: Seq<int>,
    kk: int,
    p: int,
    k: Key,
) -> bool {
    match k {
        Key::Slot(c2, q, i2) => (c2 == old_cat || c2 == new_cat) && 1 <= q <= p && among_int(
            idxs,
            kk,
            i2,
        ),
        _ => false,
    }
}

/// Effect of renaming the numbered slots of the first `kk` saves, where
/// the old slots exist, no slot of the new name exists, and the real
/// indices are pairwise distinct: it runs without failing, moves every
/// slot, and touches nothing else.
pub proof fn lemma_rename_saves_effect<T>(
    d: Map<Key, T>,
    old_cat: Seq<char>,
    new_cat: Seq<char>,
    idxs: Seq<int>,
    p: int,
    kk: int,
)
    requires
        0 <= kk <= idxs.len(),
        forall|j1: int, j2: int| 0 <= j1 < j2 < kk ==> #[trigger] idxs[j1] != #[trigger] idxs[j2],
        forall|j: int, q: int|
            0 <= j < kk && 1 <= q <= p ==> #[trigger] d.contains_key(
                Key::Slot(old_cat, q, idxs[j]),
            ),
        forall|j: int, q: int|
            0 <= j < kk && 1 <= q <= p ==> !(#[trigger] d.contains_key(
                Key::Slot(new_cat, q, idxs[j]),
            )),
    ensures
        ops_valid(d, rename_saves_kops(old_cat, new_cat, idxs, p, kk)),
        forall|j: int, q: int|
            0 <= j < kk && 1 <= q <= p ==> #[trigger] apply_ops(
                d,
                rename_saves_kops(old_cat, new_cat, idxs, p, kk),
            ).contains_key(Key::Slot(new_cat, q, idxs[j])) && apply_ops(
                d,
                rename_saves_kops(old_cat, new_cat, idxs, p, kk),
            )[Key::Slot(new_cat, q, idxs[j])] == d[Key::Slot(old_cat, q, idxs[j])],
        forall|j: int, q: int|
            0 <= j < kk && 1 <= q <= p ==> !(#[trigger] apply_ops(
                d,
                rename_saves_kops(old_cat, new_cat, idxs, p, kk),
            ).contains_key(Key::Slot(old_cat, q, idxs[j]))),
        forall|k: Key|
            #![trigger rename_saves_writes(old_cat, new_cat, idxs, kk, p, k)]
            !rename_saves_writes(old_cat, new_cat, idxs, kk, p, k) ==> ((apply_ops(
                d,
                rename_saves_kops(old_cat, new_cat, idxs, p, kk),
            ).contains_key(k) <==> d.contains_key(k)) && (d.contains_key(k) ==> apply_ops(
                d,
                rename_saves_kops(old_cat, new_cat, idxs, p, kk),
            )[k] == d[k])),
    decreases kk,
{
    if kk > 0 {
        lemma_rename_saves_effect(d, old_cat, new_cat, idxs, p, kk - 1);
        let prev = rename_saves_kops(old_cat, new_cat, idxs, p, kk - 1);
        let d1 = apply_ops(d, prev);
        lemma_apply_concat(d, prev, rename_slots_kops(old_cat, new_cat, idxs[kk - 1], p));
        lemma_valid_concat(d, prev, rename_slots_kops(old_cat, new_cat, idxs[kk - 1], p));
        assert(!among_int(idxs, kk - 1, idxs[kk - 1])) by {
            if among_int(idxs, kk - 1, idxs[kk - 1]) {
                let j = choose|j: int| 0 <= j < kk - 1 && #[trigger] idxs[j] == idxs[kk - 1];
                assert(false);
            }
        }
        assert forall|q: int|
            1 <= q <= p implies #[trigger] d1.contains_key(Key::Slot(old_cat, q, idxs[kk - 1])) by {
            assert(!rename_saves_writes(
                old_cat,
                new_cat,
                idxs,
                kk - 1,
                p,
                Key::Slot(old_cat, q, idxs[kk - 1]),
            ));
            assert(apply_ops(d, rename_saves_kops(old_cat, new_cat, idxs, p, kk - 1)).contains_key(
                Key::Slot(old_cat, q, idxs[kk - 1]),
            ) <==> d.contains_key(Key::Slot(old_cat, q, idxs[kk - 1])));
        }
        assert forall|q: int|
            1 <= q <= p implies !(#[trigger] d1.contains_key(
            Key::Slot(new_cat, q, idxs[kk - 1]),
        )) by {
            assert(!rename_saves_writes(
                old_cat,
                new_cat,
                idxs,
                kk - 1,
                p,
                Key::Slot(new_cat, q, idxs[kk - 1]),
            ));
            assert(apply_ops(d, rename_saves_kops(old_cat, new_cat, idxs, p, kk - 1)).contains_key(
                Key::Slot(new_cat, q, idxs[kk - 1]),
            ) <==> d.contains_key(Key::Slot(new_cat, q, idxs[kk - 1])));
        }
        lemma_rename_one_effect(d1, old_cat, new_cat, idxs[kk - 1], p);
        let d2 = apply_ops(d, rename_saves_kops(old_cat, new_cat, idxs, p, kk));
        assert(d2 == apply_ops(d1, rename_slots_kops(old_cat, new_cat, idxs[kk - 1], p)));
        assert forall|j: int, q: int|
            0 <= j < kk && 1 <= q <= p implies #[trigger] d2.contains_key(
            Key::Slot(new_cat, q, idxs[j]),
        ) && d2[Key::Slot(new_cat, q, idxs[j])] == d[Key::Slot(old_cat, q, idxs[j])] by {
            if j < kk - 1 {
                assert(apply_ops(d, rename_saves_kops(old_cat, new_cat, idxs, p, kk - 1)).contains_key(
                    Key::Slot(new_cat, q, idxs[j]),
                ));
                assert(apply_ops(d, rename_saves_kops(old_cat, new_cat, idxs, p, kk - 1))[Key::Slot(
                    new_cat,
                    q,
                    idxs[j],
                )] == d[Key::Slot(old_cat, q, idxs[j])]);
                assert(idxs[j] != idxs[kk - 1]);
                assert(!rename_one_writes(
                    old_cat,
                    new_cat,
                    idxs[kk - 1],
                    p,
                    Key::Slot(new_cat, q, idxs[j]),
                ));
                assert(d2.contains_key(Key::Slot(new_cat, q, idxs[j])) <==> d1.contains_key(
                    Key::Slot(new_cat, q, idxs[j]),
                ));
                assert(d2[Key::Slot(new_cat, q, idxs[j])] == d1[Key::Slot(new_cat, q, idxs[j])]);
            } else {
                assert(apply_ops(d1, rename_slots_kops(old_cat, new_cat, idxs[kk - 1], p)).contains_key(
                    Key::Slot(new_cat, q, idxs[kk - 1]),
                ));
                assert(apply_ops(d1, rename_slots_kops(old_cat, new_cat, idxs[kk - 1], p))[Key::Slot(
                    new_cat,
                    q,
                    idxs[kk - 1],
                )] == d1[Key::Slot(old_cat, q, idxs[kk - 1])]);
                assert(!rename_saves_writes(
                    old_cat,
                    new_cat,
                    idxs,
                    kk - 1,
                    p,
                    Key::Slot(old_cat, q, idxs[kk - 1]),
                ));
                assert(apply_ops(d, rename_saves_kops(old_cat, new_cat, idxs, p, kk - 1))[Key::Slot(
                    old_cat,
                    q,
                    idxs[kk - 1],
                )] == d[Key::Slot(old_cat, q, idxs[kk - 1])]);
            }
        }
        assert forall|j: int, q: int|
            0 <= j < kk && 1 <= q <= p implies !(#[trigger] d2.contains_key(
            Key::Slot(old_cat, q, idxs[j]),
        )) by {
            if j < kk - 1 {
                assert(!d1.contains_key(Key::Slot(old_cat, q, idxs[j])));
                assert(idxs[j] != idxs[kk - 1]);
                assert(!rename_one_writes(
                    old_cat,
                    new_cat,
                    idxs[kk - 1],
                    p,
                    Key::Slot(old_cat, q, idxs[j]),
                ));
                assert(d2.contains_key(Key::Slot(old_cat, q, idxs[j])) <==> d1.contains_key(
                    Key::Slot(old_cat, q, idxs[j]),
                ));
            } else {
                assert(!apply_ops(d1, rename_slots_kops(old_cat, new_cat, idxs[kk - 1], p)).contains_key(
                    Key::Slot(old_cat, q, idxs[kk - 1]),
                ));
            }
        }
        assert forall|k: Key| #![trigger rename_saves_writes(old_cat, new_cat, idxs, kk, p, k)]
            !rename_saves_writes(old_cat, new_cat, idxs, kk, p, k) implies ((d2.contains_key(k)
            <==> d.contains_key(k)) && (d.contains_key(k) ==> d2[k] == d[k])) by {
            match k {
                Key::Slot(c2, q, i2) => {
                    if among_int(idxs, kk - 1, i2) {
                        let j = choose|j: int| 0 <= j < kk - 1 && #[trigger] idxs[j] == i2;
                        assert(among_int(idxs, kk, i2));
                    }
                    if i2 == idxs[kk - 1] {
                        assert(0 <= kk - 1 < kk && idxs[kk - 1] == i2);
                        assert(among_int(idxs, kk, i2));
                    }
                },
                _ => {},
            }
            assert(!rename_saves_writes(old_cat, new_cat, idxs, kk - 1, p, k));
            assert(!rename_one_writes(old_cat, new_cat, idxs[kk - 1], p, k));
            assert(apply_ops(d, rename_saves_kops(old_cat, new_cat, idxs, p, kk - 1)).contains_key(
                k,
            ) <==> d.contains_key(k));
            assert(d.contains_key(k) ==> apply_ops(
                d,
                rename_saves_kops(old_cat, new_cat, idxs, p, kk - 1),
            )[k] == d[k]);
            assert(d2.contains_key(k) <==> d1.contains_key(k));
            assert(d1.contains_key(k) ==> d2[k] == d1[k]);
        }
    }
}

/// Keys renaming the autosave slots writes: the autosave slots under both
/// names, over the first `p` ordinals.
pub open spec fn rename_autos_writes(
    old_cat: Seq<char>,
    new_cat: Seq<char>,
    p: int,
    k: Key,
) -> bool {
    match k {
        Key::Auto(c2, q) => (c2 == old_cat || c2 == new_cat) && 1 <= q <= p,
        _ => false,
    }
}

/// Effect of renaming the autosave slots, where the old ones exist and
/// the new ones do not: it runs without failing, moves each slot, and
/// touches nothing else.
pub proof fn lemma_rename_autos_effect<T>(
    d: Map<Key, T>,
    old_cat: Seq<char>,
    new_cat: Seq<char>,
    p: int,
)
    requires
        forall|q: int| 1 <= q <= p ==> #[trigger] d.contains_key(Key::Auto(old_cat, q)),
        forall|q: int| 1 <= q <= p ==> !(#[trigger] d.contains_key(Key::Auto(new_cat, q))),
    ensures
        ops_valid(d, rename_autos_kops(old_cat, new_cat, p)),
        forall|q: int|
            1 <= q <= p ==> !(#[trigger] apply_ops(d, rename_autos_kops(old_cat, new_cat, p)).contains_key(
                Key::Auto(old_cat, q),
            )),
        forall|q: int|
            1 <= q <= p ==> #[trigger] apply_ops(d, rename_autos_kops(old_cat, new_cat, p)).contains_key(
                Key::Auto(new_cat, q),
            ) && apply_ops(d, rename_autos_kops(old_cat, new_cat, p))[Key::Auto(new_cat, q)]
                == d[Key::Auto(old_cat, q)],
        forall|k: Key|
            #![trigger rename_autos_writes(old_cat, new_cat, p, k)]
            !rename_autos_writes(old_cat, new_cat, p, k) ==> ((apply_ops(
                d,
                rename_autos_kops(old_cat, new_cat, p),
            ).contains_key(k) <==> d.contains_key(k)) && (d.contains_key(k) ==> apply_ops(
                d,
                rename_autos_kops(old_cat, new_cat, p),
            )[k] == d[k])),
    decreases p,
{
    if p > 0 {
        lemma_rename_autos_effect(d, old_cat, new_cat, p - 1);
        let prev = rename_autos_kops(old_cat, new_cat, p - 1);
        let op = KOp::Ren(Key::Auto(old_cat, p), Key::Auto(new_cat, p));
        let d1 = apply_ops(d, prev);
        lemma_apply_concat(d, prev, seq![op]);
        lemma_valid_concat(d, prev, seq![op]);
        lemma_apply_one(d1, op);
        assert(d.contains_key(Key::Auto(old_cat, p)));
        assert(!d.contains_key(Key::Auto(new_cat, p)));
        assert(old_cat != new_cat);
        assert(!rename_autos_writes(old_cat, new_cat, p - 1, Key::Auto(old_cat, p)));
        assert(!rename_autos_writes(old_cat, new_cat, p - 1, Key::Auto(new_cat, p)));
        assert(apply_ops(d, rename_autos_kops(old_cat, new_cat, p - 1)).contains_key(
            Key::Auto(old_cat, p),
        ) <==> d.contains_key(Key::Auto(old_cat, p)));
        assert(apply_ops(d, rename_autos_kops(old_cat, new_cat, p - 1)).contains_key(
            Key::Auto(new_cat, p),
        ) <==> d.contains_key(Key::Auto(new_cat, p)));
        assert(apply_ops(d, rename_autos_kops(old_cat, new_cat, p - 1))[Key::Auto(old_cat, p)]
            == d[Key::Auto(old_cat, p)]);
        assert(op_enabled(d1, op));
        let d2 = apply_ops(d, rename_autos_kops(old_cat, new_cat, p));
        assert(d2 == d1.remove(Key::Auto(old_cat, p)).insert(
            Key::Auto(new_cat, p),
            d1[Key::Auto(old_cat, p)],
        ));
        assert forall|q: int|
            1 <= q <= p implies !(#[trigger] d2.contains_key(Key::Auto(old_cat, q))) by {
            if q < p {
                assert(!d1.contains_key(Key::Auto(old_cat, q)));
            }
        }
        assert forall|q: int|
            1 <= q <= p implies #[trigger] d2.contains_key(Key::Auto(new_cat, q)) && d2[Key::Auto(
            new_cat,
            q,
        )] == d[Key::Auto(old_cat, q)] by {
            if q < p {
                assert(apply_ops(d, rename_autos_kops(old_cat, new_cat, p - 1)).contains_key(
                    Key::Auto(new_cat, q),
                ));
                assert(apply_ops(d, rename_autos_kops(old_cat, new_cat, p - 1))[Key::Auto(
                    new_cat,
                    q,
                )] == d[Key::Auto(old_cat, q)]);
            }
        }
        assert forall|k: Key| #![trigger rename_autos_writes(old_cat, new_cat, p, k)]
            !rename_autos_writes(old_cat, new_cat, p, k) implies ((d2.contains_key(k)
            <==> d.contains_key(k)) && (d.contains_key(k) ==> d2[k] == d[k])) by {
            assert(!rename_autos_writes(old_cat, new_cat, p - 1, k));
            assert(k != Key::Auto(old_cat, p));
            assert(k != Key::Auto(new_cat, p));
            assert(apply_ops(d, rename_autos_kops(old_cat, new_cat, p - 1)).contains_key(k)
                <==> d.contains_key(k));
            assert(d.contains_key(k) ==> apply_ops(d, rename_autos_kops(old_cat, new_cat, p - 1))[k]
                == d[k]);
        }
    }
}

/// The ledger/disk invariant is preserved by `save` of the category at
/// `ci`: on any filesystem consistent with the old ledger, the plan runs
/// without failing, fills the fresh slots with the source trees, touches
/// nothing else, and leaves a filesystem consistent with the new ledger.
pub proof fn lemma_save_disk_at<T>(
    a0: App,
    a1: App,
    ci: int,
    name: Option<String>,
    stamp: Seq<char>,
    ops: Seq<DiskOp>,
    d: Map<Key, T>,
)
    requires
        app_wf(a0),
        active_at(a0, ci),
        app_same_but(a0, a1, ci),
        cat_after_save(a0.categories@[ci], a1.categories@[ci], name, stamp),
        kops_of(ops) == save_kops(
            a0.categories@[ci].name@,
            str_views(a0.categories@[ci].paths@),
            a0.categories@[ci].max as int,
            a0.categories@[ci].paths@.len() as int,
        ),
        disk_ok(a0, d),
    ensures
        ops_valid(d, kops_of(ops)),
        disk_ok(a1, apply_ops(d, kops_of(ops))),
        forall|q: int|
            1 <= q <= a0.categories@[ci].paths@.len() ==> #[trigger] apply_ops(d, kops_of(ops)).contains_key(
                Key::Slot(a0.categories@[ci].name@, q, a0.categories@[ci].max as int),
            ) && apply_ops(d, kops_of(ops))[Key::Slot(
                a0.categories@[ci].name@,
                q,
                a0.categories@[ci].max as int,
            )] == d[Key::Source(str_views(a0.categories@[ci].paths@)[q - 1])],
        forall|k: Key|
            #![trigger save_writes(a0.categories@[ci].name@, a0.categories@[ci].max as int, a0.categories@[ci].paths@.len() as int, k)]
            !save_writes(
                a0.categories@[ci].name@,
                a0.categories@[ci].max as int,
                a0.categories@[ci].paths@.len() as int,
                k,
            ) ==> ((apply_ops(d, kops_of(ops)).contains_key(k) <==> d.contains_key(k)) && (
            d.contains_key(k) ==> apply_ops(d, kops_of(ops))[k] == d[k])),
{
    let c0 = a0.categories@[ci];
    let c1 = a1.categories@[ci];
    let cat = c0.name@;
    let views = str_views(c0.paths@);
    let idx = c0.max as int;
    let pcount = c0.paths@.len() as int;
    let len0 = c0.saves@.len() as int;
    assert(cat_wf(c0));
    assert(views.len() == pcount);
    assert forall|q: int| 0 <= q < pcount implies d.contains_key(
        Key::Source(#[trigger] views[q]),
    ) by {
        assert(views[q] == c0.paths@[q]@);
        assert(d.contains_key(Key::Source(a0.categories@[ci].paths@[q]@)));
    }
    assert forall|q: int|
        1 <= q <= pcount implies !(#[trigger] d.contains_key(Key::Slot(cat, q, idx))) by {
        if d.contains_key(Key::Slot(cat, q, idx)) {
            assert(slot_live(a0, cat, q, idx));
            let (ci2, k) = choose|ci2: int, k: int|
                #![trigger a0.categories@[ci2].saves@[k]]
                {
                    &&& 0 <= ci2 < a0.categories@.len()
                    &&& a0.categories@[ci2].name@ == cat
                    &&& 1 <= q <= a0.categories@[ci2].paths@.len()
                    &&& 0 <= k < a0.categories@[ci2].saves@.len()
                    &&& a0.categories@[ci2].saves@[k].real_index == idx
                };
            assert(a0.categories@[ci2].name@ == a0.categories@[ci].name@);
            assert(ci2 == ci);
            assert(c0.saves@[k].real_index < c0.max);
            assert(false);
        }
    }
    lemma_save_effect(d, cat, views, idx, pcount);
    let d1 = apply_ops(d, kops_of(ops));
    assert(d1 == apply_ops(d, save_kops(cat, views, idx, pcount)));
    assert forall|cj: int, q: int|
        0 <= cj < a1.categories@.len() && 0 <= q < a1.categories@[cj].paths@.len() implies d1.contains_key(
        Key::Source(#[trigger] a1.categories@[cj].paths@[q]@),
    ) by {
        if cj != ci {
            assert(a1.categories@[cj] == a0.categories@[cj]);
        } else {
            assert(c1.paths == c0.paths);
        }
        assert(d.contains_key(Key::Source(a0.categories@[cj].paths@[q]@)));
        assert(!save_writes(cat, idx, pcount, Key::Source(a1.categories@[cj].paths@[q]@)));
    }
    assert forall|cat2: Seq<char>, p2: int, r: int|
        #[trigger] d1.contains_key(Key::Slot(cat2, p2, r)) <==> slot_live(a1, cat2, p2, r) by {
        if cat2 == cat && r == idx && 1 <= p2 <= pcount {
            assert(apply_ops(d, save_kops(cat, views, idx, pcount)).contains_key(
                Key::Slot(cat, p2, idx),
            ));
            assert(a1.categories@[ci].saves@[len0] == c1.saves@.last());
            assert(c1.saves@.last().real_index == c0.max);
            assert(1 <= p2 <= c1.paths@.len());
            assert(slot_live(a1, cat2, p2, r));
        } else {
            assert(!save_writes(cat, idx, pcount, Key::Slot(cat2, p2, r)));
            assert(apply_ops(d, save_kops(cat, views, idx, pcount)).contains_key(
                Key::Slot(cat2, p2, r),
            ) <==> d.contains_key(Key::Slot(cat2, p2, r)));
            if slot_live(a0, cat2, p2, r) {
                let (ci2, k) = choose|ci2: int, k: int|
                    #![trigger a0.categories@[ci2].saves@[k]]
                    {
                        &&& 0 <= ci2 < a0.categories@.len()
                        &&& a0.categories@[ci2].name@ == cat2
                        &&& 1 <= p2 <= a0.categories@[ci2].paths@.len()
                        &&& 0 <= k < a0.categories@[ci2].saves@.len()
                        &&& a0.categories@[ci2].saves@[k].real_index == r
                    };
                if ci2 == ci {
                    assert(c1.saves@[k] == c0.saves@[k]);
                    assert(a1.categories@[ci].saves@[k].real_index == r);
                } else {
                    assert(a1.categories@[ci2] == a0.categories@[ci2]);
                    assert(a1.categories@[ci2].saves@[k].real_index == r);
                }
                assert(slot_live(a1, cat2, p2, r));
            }
            if slot_live(a1, cat2, p2, r) {
                let (ci2, k) = choose|ci2: int, k: int|
                    #![trigger a1.categories@[ci2].saves@[k]]
                    {
                        &&& 0 <= ci2 < a1.categories@.len()
                        &&& a1.categories@[ci2].name@ == cat2
                        &&& 1 <= p2 <= a1.categories@[ci2].paths@.len()
                        &&& 0 <= k < a1.categories@[ci2].saves@.len()
                        &&& a1.categories@[ci2].saves@[k].real_index == r
                    };
                if ci2 == ci {
                    assert(c1.name@ == cat);
                    if k == len0 {
                        assert(c1.saves@[k].real_index == c0.max);
                        assert(c1.paths == c0.paths);
                        assert(false);
                    } else {
                        assert(c1.saves@[k] == c0.saves@[k]);
                        assert(a0.categories@[ci].saves@[k].real_index == r);
                    }
                } else {
                    assert(a1.categories@[ci2] == a0.categories@[ci2]);
                    assert(a0.categories@[ci2].saves@[k].real_index == r);
                }
                assert(slot_live(a0, cat2, p2, r));
            }
        }
    }
    assert forall|cat2: Seq<char>, p2: int|
        #[trigger] d1.contains_key(Key::Auto(cat2, p2)) <==> auto_live(a1, cat2, p2) by {
        assert(!save_writes(cat, idx, pcount, Key::Auto(cat2, p2)));
        assert(apply_ops(d, save_kops(cat, views, idx, pcount)).contains_key(Key::Auto(cat2, p2))
            <==> d.contains_key(Key::Auto(cat2, p2)));
        if auto_live(a0, cat2, p2) {
            let ci2 = choose|ci2: int|
                #![trigger a0.categories@[ci2]]
                {
                    &&& 0 <= ci2 < a0.categories@.len()
                    &&& a0.categories@[ci2].name@ == cat2
                    &&& a0.categories@[ci2].auto is Some
                    &&& 1 <= p2 <= a0.categories@[ci2].paths@.len()
                };
            if ci2 == ci {
                assert(c1.auto == c0.auto);
                assert(c1.paths == c0.paths);
                assert(a1.categories@[ci].name@ == cat2);
            } else {
                assert(a1.categories@[ci2] == a0.categories@[ci2]);
            }
            assert(auto_live(a1, cat2, p2));
        }
        if auto_live(a1, cat2, p2) {
            let ci2 = choose|ci2: int|
                #![trigger a1.categories@[ci2]]
                {
                    &&& 0 <= ci2 < a1.categories@.len()
                    &&& a1.categories@[ci2].name@ == cat2
                    &&& a1.categories@[ci2].auto is Some
                    &&& 1 <= p2 <= a1.categories@[ci2].paths@.len()
                };
            if ci2 == ci {
                assert(a0.categories@[ci].name@ == cat2);
                assert(c0.auto is Some);
            } else {
                assert(a1.categories@[ci2] == a0.categories@[ci2]);
            }
            assert(auto_live(a0, cat2, p2));
        }
    }
    assert forall|cat2: Seq<char>, p2: int|
        !(#[trigger] d1.contains_key(Key::Holding(cat2, p2))) by {
        assert(!save_writes(cat, idx, pcount, Key::Holding(cat2, p2)));
        assert(apply_ops(d, save_kops(cat, views, idx, pcount)).contains_key(
            Key::Holding(cat2, p2),
        ) <==> d.contains_key(Key::Holding(cat2, p2)));
    }
}

/// The ledger/disk invariant is preserved by a numbered `load` of the
/// save at position `i` of the active category (whose tracked paths must
/// be distinct), and the plan cannot fail on a consistent filesystem.
/// Afterwards each autosave slot holds what the source held, and each
/// source holds what the loaded version's slot held — the slot itself is
/// untouched.
pub proof fn theorem_load_disk<T>(
    a0: App,
    a1: App,
    ci: int,
    i: int,
    stamp: Seq<char>,
    ops: Seq<DiskOp>,
    d: Map<Key, T>,
)
    requires
        app_wf(a0),
        active_at(a0, ci),
        app_same_but(a0, a1, ci),
        0 <= i < a0.categories@[ci].saves@.len(),
        cat_marked(a0.categories@[ci], a1.categories@[ci], stamp),
        kops_of(ops) == load_kops(
            a0.categories@[ci].name@,
            str_views(a0.categories@[ci].paths@),
            a0.categories@[ci].saves@[i].real_index as int,
            a0.categories@[ci].auto is Some,
        ),
        distinct_paths(a0.categories@[ci]),
        disk_ok(a0, d),
    ensures
        ops_valid(d, kops_of(ops)),
        disk_ok(a1, apply_ops(d, kops_of(ops))),
        forall|q: int|
            1 <= q <= a0.categories@[ci].paths@.len() ==> #[trigger] apply_ops(d, kops_of(ops)).contains_key(
                Key::Auto(a0.categories@[ci].name@, q),
            ) && apply_ops(d, kops_of(ops))[Key::Auto(a0.categories@[ci].name@, q)] == d[Key::Source(
                str_views(a0.categories@[ci].paths@)[q - 1],
            )],
        forall|q: int|
            1 <= q <= a0.categories@[ci].paths@.len() ==> #[trigger] apply_ops(d, kops_of(ops)).contains_key(
                Key::Source(str_views(a0.categories@[ci].paths@)[q - 1]),
            ) && apply_ops(d, kops_of(ops))[Key::Source(str_views(a0.categories@[ci].paths@)[q - 1])]
                == d[Key::Slot(
                a0.categories@[ci].name@,
                q,
                a0.categories@[ci].saves@[i].real_index as int,
            )],
        forall|k: Key|
            #![trigger load_main_writes(a0.categories@[ci].name@, str_views(a0.categories@[ci].paths@), a0.categories@[ci].paths@.len() as int, k)]
            !load_main_writes(
                a0.categories@[ci].name@,
                str_views(a0.categories@[ci].paths@),
                a0.categories@[ci].paths@.len() as int,
                k,
            ) ==> ((apply_ops(d, kops_of(ops)).contains_key(k) <==> d.contains_key(k)) && (
            d.contains_key(k) ==> apply_ops(d, kops_of(ops))[k] == d[k])),
{
    let c0 = a0.categories@[ci];
    let c1 = a1.categories@[ci];
    let cat = c0.name@;
    let views = str_views(c0.paths@);
    let idx = c0.saves@[i].real_index as int;
    let pcount = c0.paths@.len() as int;
    let marker = c0.auto is Some;
    assert(cat_wf(c0));
    assert(views.len() == pcount);
    assert forall|q1: int, q2: int|
        0 <= q1 < q2 < pcount implies #[trigger] views[q1] != #[trigger] views[q2] by {
        assert(views[q1] == c0.paths@[q1]@);
        assert(views[q2] == c0.paths@[q2]@);
    }
    assert forall|q: int| 0 <= q < pcount implies d.contains_key(
        Key::Source(#[trigger] views[q]),
    ) by {
        assert(views[q] == c0.paths@[q]@);
        assert(d.contains_key(Key::Source(a0.categories@[ci].paths@[q]@)));
    }
    assert forall|q: int|
        1 <= q <= pcount implies #[trigger] d.contains_key(Key::Slot(cat, q, idx)) by {
        assert(a0.categories@[ci].saves@[i].real_index == idx);
        assert(slot_live(a0, cat, q, idx));
    }
    assert forall|q: int|
        1 <= q <= pcount implies (#[trigger] d.contains_key(Key::Auto(cat, q)) <==> marker) by {
        if marker {
            assert(auto_live(a0, cat, q));
        }
        if d.contains_key(Key::Auto(cat, q)) {
            assert(auto_live(a0, cat, q));
            let ci2 = choose|ci2: int|
                #![trigger a0.categories@[ci2]]
                {
                    &&& 0 <= ci2 < a0.categories@.len()
                    &&& a0.categories@[ci2].name@ == cat
                    &&& a0.categories@[ci2].auto is Some
                    &&& 1 <= q <= a0.categories@[ci2].paths@.len()
                };
            assert(a0.categories@[ci2].name@ == a0.categories@[ci].name@);
            assert(ci2 == ci);
        }
    }
    let main = load_main_kops(cat, views, idx, pcount);
    let d1 = apply_ops(d, kops_of(ops));
    if marker {
        let ev = evict_kops(cat, pcount);
        lemma_evict_effect(d, cat, pcount);
        let de = apply_ops(d, ev);
        lemma_apply_concat(d, ev, main);
        lemma_valid_concat(d, ev, main);
        assert(kops_of(ops) == ev + main);
        assert(d1 == apply_ops(de, main));
        assert forall|q: int| 0 <= q < pcount implies de.contains_key(
            Key::Source(#[trigger] views[q]),
        ) by {
            assert(!auto_writes(cat, pcount, Key::Source(views[q])));
            assert(apply_ops(d, evict_kops(cat, pcount)).contains_key(Key::Source(views[q]))
                <==> d.contains_key(Key::Source(views[q])));
        }
        assert forall|q: int|
            1 <= q <= pcount implies #[trigger] de.contains_key(Key::Slot(cat, q, idx)) by {
            assert(!auto_writes(cat, pcount, Key::Slot(cat, q, idx)));
            assert(apply_ops(d, evict_kops(cat, pcount)).contains_key(Key::Slot(cat, q, idx))
                <==> d.contains_key(Key::Slot(cat, q, idx)));
        }
        assert forall|q: int|
            1 <= q <= pcount implies !(#[trigger] de.contains_key(Key::Auto(cat, q))) by {
            assert(!apply_ops(d, evict_kops(cat, pcount)).contains_key(Key::Auto(cat, q)));
        }
        lemma_load_main_effect(de, cat, views, idx, pcount);
        assert(ops_valid(d, kops_of(ops)));
        assert forall|q: int|
            1 <= q <= pcount implies #[trigger] d1.contains_key(Key::Auto(cat, q))
            && d1[Key::Auto(cat, q)] == d[Key::Source(views[q - 1])] by {
            assert(apply_ops(de, load_main_kops(cat, views, idx, pcount)).contains_key(
                Key::Auto(cat, q),
            ));
            assert(apply_ops(de, load_main_kops(cat, views, idx, pcount))[Key::Auto(cat, q)]
                == de[Key::Source(views[q - 1])]);
            assert(!auto_writes(cat, pcount, Key::Source(views[q - 1])));
            assert(d.contains_key(Key::Source(views[q - 1])) ==> apply_ops(
                d,
                evict_kops(cat, pcount),
            )[Key::Source(views[q - 1])] == d[Key::Source(views[q - 1])]);
        }
        assert forall|q: int|
            1 <= q <= pcount implies #[trigger] d1.contains_key(Key::Source(views[q - 1]))
            && d1[Key::Source(views[q - 1])] == d[Key::Slot(cat, q, idx)] by {
            assert(apply_ops(de, load_main_kops(cat, views, idx, pcount)).contains_key(
                Key::Source(views[q - 1]),
            ));
            assert(apply_ops(de, load_main_kops(cat, views, idx, pcount))[Key::Source(
                views[q - 1],
            )] == de[Key::Slot(cat, q, idx)]);
            assert(!auto_writes(cat, pcount, Key::Slot(cat, q, idx)));
            assert(d.contains_key(Key::Slot(cat, q, idx)) ==> apply_ops(d, evict_kops(cat, pcount))[Key::Slot(
                cat,
                q,
                idx,
            )] == d[Key::Slot(cat, q, idx)]);
        }
        assert forall|k: Key|
            #![trigger load_main_writes(cat, views, pcount, k)]
            !load_main_writes(cat, views, pcount, k) implies ((d1.contains_key(k)
            <==> d.contains_key(k)) && (d.contains_key(k) ==> d1[k] == d[k])) by {
            assert(!auto_writes(cat, pcount, k)) by {
                match k {
                    Key::Auto(c2, q) => {
                        if c2 == cat && 1 <= q <= pcount {
                            assert(load_main_writes(cat, views, pcount, k));
                            assert(false);
                        }
                    },
                    _ => {},
                }
            }
            assert(apply_ops(d, evict_kops(cat, pcount)).contains_key(k) <==> d.contains_key(k));
            assert(d.contains_key(k) ==> apply_ops(d, evict_kops(cat, pcount))[k] == d[k]);
            assert(apply_ops(de, load_main_kops(cat, views, idx, pcount)).contains_key(k)
                <==> de.contains_key(k));
            assert(de.contains_key(k) ==> apply_ops(de, load_main_kops(cat, views, idx, pcount))[k]
                == de[k]);
        }
    } else {
        assert(kops_of(ops) =~= main);
        lemma_load_main_effect(d, cat, views, idx, pcount);
        assert(d1 == apply_ops(d, main));
        assert forall|q: int|
            1 <= q <= pcount implies #[trigger] d1.contains_key(Key::Auto(cat, q))
            && d1[Key::Auto(cat, q)] == d[Key::Source(views[q - 1])] by {
            assert(apply_ops(d, load_main_kops(cat, views, idx, pcount)).contains_key(
                Key::Auto(cat, q),
            ));
        }
        assert forall|q: int|
            1 <= q <= pcount implies #[trigger] d1.contains_key(Key::Source(views[q - 1]))
            && d1[Key::Source(views[q - 1])] == d[Key::Slot(cat, q, idx)] by {
            assert(apply_ops(d, load_main_kops(cat, views, idx, pcount)).contains_key(
                Key::Source(views[q - 1]),
            ));
        }
        assert forall|k: Key|
            #![trigger load_main_writes(cat, views, pcount, k)]
            !load_main_writes(cat, views, pcount, k) implies ((d1.contains_key(k)
            <==> d.contains_key(k)) && (d.contains_key(k) ==> d1[k] == d[k])) by {
            assert(apply_ops(d, load_main_kops(cat, views, idx, pcount)).contains_key(k)
                <==> d.contains_key(k));
            assert(d.contains_key(k) ==> apply_ops(d, load_main_kops(cat, views, idx, pcount))[k]
                == d[k]);
        }
    }
    assert forall|cj: int, q: int|
        0 <= cj < a1.categories@.len() && 0 <= q < a1.categories@[cj].paths@.len() implies d1.contains_key(
        Key::Source(#[trigger] a1.categories@[cj].paths@[q]@),
    ) by {
        let x = a1.categories@[cj].paths@[q]@;
        if cj != ci {
            assert(a1.categories@[cj] == a0.categories@[cj]);
        } else {
            assert(c1.paths == c0.paths);
        }
        assert(d.contains_key(Key::Source(a0.categories@[cj].paths@[q]@)));
        if among(views, pcount, x) {
            let q2 = choose|q2: int| 0 <= q2 < pcount && #[trigger] views[q2] == x;
            let qq = q2 + 1;
            assert(1 <= qq <= pcount);
            assert(d1.contains_key(Key::Source(views[qq - 1])));
            assert(views[qq - 1] == x);
        } else {
            assert(!load_main_writes(cat, views, pcount, Key::Source(x)));
        }
    }
    assert forall|cat2: Seq<char>, p2: int, r: int|
        #[trigger] d1.contains_key(Key::Slot(cat2, p2, r)) <==> slot_live(a1, cat2, p2, r) by {
        assert(!load_main_writes(cat, views, pcount, Key::Slot(cat2, p2, r)));
        assert(d1.contains_key(Key::Slot(cat2, p2, r)) <==> d.contains_key(
            Key::Slot(cat2, p2, r),
        ));
        if slot_live(a0, cat2, p2, r) {
            let (ci2, k) = choose|ci2: int, k: int|
                #![trigger a0.categories@[ci2].saves@[k]]
                {
                    &&& 0 <= ci2 < a0.categories@.len()
                    &&& a0.categories@[ci2].name@ == cat2
                    &&& 1 <= p2 <= a0.categories@[ci2].paths@.len()
                    &&& 0 <= k < a0.categories@[ci2].saves@.len()
                    &&& a0.categories@[ci2].saves@[k].real_index == r
                };
            if ci2 == ci {
                assert(c1.saves == c0.saves);
                assert(c1.paths == c0.paths);
                assert(a1.categories@[ci].saves@[k].real_index == r);
            } else {
                assert(a1.categories@[ci2] == a0.categories@[ci2]);
                assert(a1.categories@[ci2].saves@[k].real_index == r);
            }
            assert(slot_live(a1, cat2, p2, r));
        }
        if slot_live(a1, cat2, p2, r) {
            let (ci2, k) = choose|ci2: int, k: int|
                #![trigger a1.categories@[ci2].saves@[k]]
                {
                    &&& 0 <= ci2 < a1.categories@.len()
                    &&& a1.categories@[ci2].name@ == cat2
                    &&& 1 <= p2 <= a1.categories@[ci2].paths@.len()
                    &&& 0 <= k < a1.categories@[ci2].saves@.len()
                    &&& a1.categories@[ci2].saves@[k].real_index == r
                };
            if ci2 == ci {
                assert(c1.saves == c0.saves);
                assert(a0.categories@[ci].saves@[k].real_index == r);
            } else {
                assert(a1.categories@[ci2] == a0.categories@[ci2]);
                assert(a0.categories@[ci2].saves@[k].real_index == r);
            }
            assert(slot_live(a0, cat2, p2, r));
        }
    }
    assert forall|cat2: Seq<char>, p2: int|
        #[trigger] d1.contains_key(Key::Auto(cat2, p2)) <==> auto_live(a1, cat2, p2) by {
        if cat2 == cat && 1 <= p2 <= pcount {
            assert(d1.contains_key(Key::Auto(cat, p2)));
            assert(c1.auto is Some);
            assert(c1.paths == c0.paths);
            assert(a1.categories@[ci].name@ == cat2);
            assert(auto_live(a1, cat2, p2));
        } else {
            assert(!load_main_writes(cat, views, pcount, Key::Auto(cat2, p2)));
            assert(d1.contains_key(Key::Auto(cat2, p2)) <==> d.contains_key(Key::Auto(cat2, p2)));
            if auto_live(a0, cat2, p2) {
                let ci2 = choose|ci2: int|
                    #![trigger a0.categories@[ci2]]
                    {
                        &&& 0 <= ci2 < a0.categories@.len()
                        &&& a0.categories@[ci2].name@ == cat2
                        &&& a0.categories@[ci2].auto is Some
                        &&& 1 <= p2 <= a0.categories@[ci2].paths@.len()
                    };
                if ci2 == ci {
                    assert(c1.auto is Some);
                    assert(c1.paths == c0.paths);
                    assert(a1.categories@[ci].name@ == cat2);
                } else {
                    assert(a1.categories@[ci2] == a0.categories@[ci2]);
                }
                assert(auto_live(a1, cat2, p2));
            }
            if auto_live(a1, cat2, p2) {
                let ci2 = choose|ci2: int|
                    #![trigger a1.categories@[ci2]]
                    {
                        &&& 0 <= ci2 < a1.categories@.len()
                        &&& a1.categories@[ci2].name@ == cat2
                        &&& a1.categories@[ci2].auto is Some
                        &&& 1 <= p2 <= a1.categories@[ci2].paths@.len()
                    };
                if ci2 == ci {
                    assert(cat2 == cat);
                    assert(p2 > pcount || p2 < 1) by {
                        assert(c1.paths == c0.paths);
                    }
                    assert(false);
                } else {
                    assert(a1.categories@[ci2] == a0.categories@[ci2]);
                    assert(auto_live(a0, cat2, p2));
                }
            }
        }
    }
    assert forall|cat2: Seq<char>, p2: int|
        !(#[trigger] d1.contains_key(Key::Holding(cat2, p2))) by {
        assert(!load_main_writes(cat, views, pcount, Key::Holding(cat2, p2)));
        assert(d1.contains_key(Key::Holding(cat2, p2)) <==> d.contains_key(
            Key::Holding(cat2, p2),
        ));
    }
}

/// The ledger/disk invariant is preserved by `load auto` on the active
/// category (tracked paths distinct, autosave present): the rotation
/// cannot fail, and afterwards each source holds what its autosave slot
/// held and each autosave slot holds what the source held.
pub proof fn theorem_rotate_disk<T>(
    a0: App,
    a1: App,
    ci: int,
    stamp: Seq<char>,
    ops: Seq<DiskOp>,
    d: Map<Key, T>,
)
    requires
        app_wf(a0),
        active_at(a0, ci),
        app_same_but(a0, a1, ci),
        a0.categories@[ci].auto is Some,
        cat_marked(a0.categories@[ci], a1.categories@[ci], stamp),
        kops_of(ops) == rotate_kops(
            a0.categories@[ci].name@,
            str_views(a0.categories@[ci].paths@),
            a0.categories@[ci].paths@.len() as int,
        ),
        distinct_paths(a0.categories@[ci]),
        disk_ok(a0, d),
    ensures
        ops_valid(d, kops_of(ops)),
        disk_ok(a1, apply_ops(d, kops_of(ops))),
        forall|q: int|
            1 <= q <= a0.categories@[ci].paths@.len() ==> #[trigger] apply_ops(d, kops_of(ops)).contains_key(
                Key::Source(str_views(a0.categories@[ci].paths@)[q - 1]),
            ) && apply_ops(d, kops_of(ops))[Key::Source(str_views(a0.categories@[ci].paths@)[q - 1])]
                == d[Key::Auto(a0.categories@[ci].name@, q)],
        forall|q: int|
            1 <= q <= a0.categories@[ci].paths@.len() ==> #[trigger] apply_ops(d, kops_of(ops)).contains_key(
                Key::Auto(a0.categories@[ci].name@, q),
            ) && apply_ops(d, kops_of(ops))[Key::Auto(a0.categories@[ci].name@, q)] == d[Key::Source(
                str_views(a0.categories@[ci].paths@)[q - 1],
            )],
        forall|k: Key|
            #![trigger rotate_writes(a0.categories@[ci].name@, str_views(a0.categories@[ci].paths@), a0.categories@[ci].paths@.len() as int, k)]
            !rotate_writes(
                a0.categories@[ci].name@,
                str_views(a0.categories@[ci].paths@),
                a0.categories@[ci].paths@.len() as int,
                k,
            ) ==> ((apply_ops(d, kops_of(ops)).contains_key(k) <==> d.contains_key(k)) && (
            d.contains_key(k) ==> apply_ops(d, kops_of(ops))[k] == d[k])),
{
    let c0 = a0.categories@[ci];
    let c1 = a1.categories@[ci];
    let cat = c0.name@;
    let views = str_views(c0.paths@);
    let pcount = c0.paths@.len() as int;
    assert(views.len() == pcount);
    assert forall|q1: int, q2: int|
        0 <= q1 < q2 < pcount implies #[trigger] views[q1] != #[trigger] views[q2] by {
        assert(views[q1] == c0.paths@[q1]@);
        assert(views[q2] == c0.paths@[q2]@);
    }
    assert forall|q: int| 0 <= q < pcount implies d.contains_key(
        Key::Source(#[trigger] views[q]),
    ) by {
        assert(views[q] == c0.paths@[q]@);
        assert(d.contains_key(Key::Source(a0.categories@[ci].paths@[q]@)));
    }
    assert forall|q: int|
        1 <= q <= pcount implies #[trigger] d.contains_key(Key::Auto(cat, q)) by {
        assert(auto_live(a0, cat, q));
    }
    assert forall|q: int|
        1 <= q <= pcount implies !(#[trigger] d.contains_key(Key::Holding(cat, q))) by {}
    lemma_rotate_effect(d, cat, views, pcount);
    let d1 = apply_ops(d, kops_of(ops));
    assert(d1 == apply_ops(d, rotate_kops(cat, views, pcount)));
    assert forall|cj: int, q: int|
        0 <= cj < a1.categories@.len() && 0 <= q < a1.categories@[cj].paths@.len() implies d1.contains_key(
        Key::Source(#[trigger] a1.categories@[cj].paths@[q]@),
    ) by {
        let x = a1.categories@[cj].paths@[q]@;
        if cj != ci {
            assert(a1.categories@[cj] == a0.categories@[cj]);
        } else {
            assert(c1.paths == c0.paths);
        }
        assert(d.contains_key(Key::Source(a0.categories@[cj].paths@[q]@)));
        if among(views, pcount, x) {
            let q2 = choose|q2: int| 0 <= q2 < pcount && #[trigger] views[q2] == x;
            let qq = q2 + 1;
            assert(1 <= qq <= pcount);
            assert(apply_ops(d, rotate_kops(cat, views, pcount)).contains_key(
                Key::Source(views[qq - 1]),
            ));
            assert(views[qq - 1] == x);
        } else {
            assert(!rotate_writes(cat, views, pcount, Key::Source(x)));
        }
    }
    assert forall|cat2: Seq<char>, p2: int, r: int|
        #[trigger] d1.contains_key(Key::Slot(cat2, p2, r)) <==> slot_live(a1, cat2, p2, r) by {
        assert(!rotate_writes(cat, views, pcount, Key::Slot(cat2, p2, r)));
        assert(d1.contains_key(Key::Slot(cat2, p2, r)) <==> d.contains_key(
            Key::Slot(cat2, p2, r),
        ));
        if slot_live(a0, cat2, p2, r) {
            let (ci2, k) = choose|ci2: int, k: int|
                #![trigger a0.categories@[ci2].saves@[k]]
                {
                    &&& 0 <= ci2 < a0.categories@.len()
                    &&& a0.categories@[ci2].name@ == cat2
                    &&& 1 <= p2 <= a0.categories@[ci2].paths@.len()
                    &&& 0 <= k < a0.categories@[ci2].saves@.len()
                    &&& a0.categories@[ci2].saves@[k].real_index == r
                };
            if ci2 == ci {
                assert(c1.saves == c0.saves);
                assert(c1.paths == c0.paths);
                assert(a1.categories@[ci].saves@[k].real_index == r);
            } else {
                assert(a1.categories@[ci2] == a0.categories@[ci2]);
                assert(a1.categories@[ci2].saves@[k].real_index == r);
            }
            assert(slot_live(a1, cat2, p2, r));
        }
        if slot_live(a1, cat2, p2, r) {
            let (ci2, k) = choose|ci2: int, k: int|
                #![trigger a1.categories@[ci2].saves@[k]]
                {
                    &&& 0 <= ci2 < a1.categories@.len()
                    &&& a1.categories@[ci2].name@ == cat2
                    &&& 1 <= p2 <= a1.categories@[ci2].paths@.len()
                    &&& 0 <= k < a1.categories@[ci2].saves@.len()
                    &&& a1.categories@[ci2].saves@[k].real_index == r
                };
            if ci2 == ci {
                assert(c1.saves == c0.saves);
                assert(a0.categories@[ci].saves@[k].real_index == r);
            } else {
                assert(a1.categories@[ci2] == a0.categories@[ci2]);
                assert(a0.categories@[ci2].saves@[k].real_index == r);
            }
            assert(slot_live(a0, cat2, p2, r));
        }
    }
    assert forall|cat2: Seq<char>, p2: int|
        #[trigger] d1.contains_key(Key::Auto(cat2, p2)) <==> auto_live(a1, cat2, p2) by {
        if cat2 == cat && 1 <= p2 <= pcount {
            assert(apply_ops(d, rotate_kops(cat, views, pcount)).contains_key(Key::Auto(cat, p2)));
            assert(c1.auto is Some);
            assert(c1.paths == c0.paths);
            assert(a1.categories@[ci].name@ == cat2);
            assert(auto_live(a1, cat2, p2));
        } else {
            assert(!rotate_writes(cat, views, pcount, Key::Auto(cat2, p2)));
            assert(d1.contains_key(Key::Auto(cat2, p2)) <==> d.contains_key(Key::Auto(cat2, p2)));
            if auto_live(a0, cat2, p2) {
                let ci2 = choose|ci2: int|
                    #![trigger a0.categories@[ci2]]
                    {
                        &&& 0 <= ci2 < a0.categories@.len()
                        &&& a0.categories@[ci2].name@ == cat2
                        &&& a0.categories@[ci2].auto is Some
                        &&& 1 <= p2 <= a0.categories@[ci2].paths@.len()
                    };
                if ci2 == ci {
                    assert(c1.auto is Some);
                    assert(c1.paths == c0.paths);
                    assert(a1.categories@[ci].name@ == cat2);
                } else {
                    assert(a1.categories@[ci2] == a0.categories@[ci2]);
                }
                assert(auto_live(a1, cat2, p2));
            }
            if auto_live(a1, cat2, p2) {
                let ci2 = choose|ci2: int|
                    #![trigger a1.categories@[ci2]]
                    {
                        &&& 0 <= ci2 < a1.categories@.len()
                        &&& a1.categories@[ci2].name@ == cat2
                        &&& a1.categories@[ci2].auto is Some
                        &&& 1 <= p2 <= a1.categories@[ci2].paths@.len()
                    };
                if ci2 == ci {
                    assert(c1.paths == c0.paths);
                    assert(false);
                } else {
                    assert(a1.categories@[ci2] == a0.categories@[ci2]);
                    assert(auto_live(a0, cat2, p2));
                }
            }
        }
    }
    assert forall|cat2: Seq<char>, p2: int|
        !(#[trigger] d1.contains_key(Key::Holding(cat2, p2))) by {
        if cat2 == cat && 1 <= p2 <= pcount {
            assert(!apply_ops(d, rotate_kops(cat, views, pcount)).contains_key(
                Key::Holding(cat, p2),
            ));
        } else {
            assert(!rotate_writes(cat, views, pcount, Key::Holding(cat2, p2)));
            assert(d1.contains_key(Key::Holding(cat2, p2)) <==> d.contains_key(
                Key::Holding(cat2, p2),
            ));
        }
    }
}

/// Round trip: `save`, then `load` of that save (the latest), then
/// `load auto`, restores every tracked tree of the active category to
/// exactly what it held before — the parked tree comes back through
/// the autosave rotation.  Holds whenever the category's tracked paths
/// are distinct, on any filesystem consistent with the starting ledger.
pub proof fn theorem_round_trip<T>(
    a0: App,
    a1: App,
    a2: App,
    a3: App,
    ci: int,
    name: Option<String>,
    s1: Seq<char>,
    s2: Seq<char>,
    s3: Seq<char>,
    ops1: Seq<DiskOp>,
    ops2: Seq<DiskOp>,
    ops3: Seq<DiskOp>,
    d: Map<Key, T>,
)
    requires
        app_wf(a0),
        app_wf(a1),
        app_wf(a2),
        active_at(a0, ci),
        distinct_paths(a0.categories@[ci]),
        disk_ok(a0, d),
        save_ok(a0, a1, name, s1, ops1),
        load_default_ok(a1, a2, s2, ops2),
        rotate_ok(a2, a3, s3, ops3),
    ensures
        ops_valid(d, kops_of(ops1)),
        ops_valid(apply_ops(d, kops_of(ops1)), kops_of(ops2)),
        ops_valid(apply_ops(apply_ops(d, kops_of(ops1)), kops_of(ops2)), kops_of(ops3)),
        forall|q: int|
            0 <= q < a0.categories@[ci].paths@.len() ==> (#[trigger] apply_ops(
                apply_ops(apply_ops(d, kops_of(ops1)), kops_of(ops2)),
                kops_of(ops3),
            ).contains_key(Key::Source(a0.categories@[ci].paths@[q]@)) && apply_ops(
                apply_ops(apply_ops(d, kops_of(ops1)), kops_of(ops2)),
                kops_of(ops3),
            )[Key::Source(a0.categories@[ci].paths@[q]@)] == d[Key::Source(
                a0.categories@[ci].paths@[q]@,
            )]),
{
    let c0 = a0.categories@[ci];
    let cat = c0.name@;
    let views = str_views(c0.paths@);
    let pcount = c0.paths@.len() as int;
    let idx = c0.max as int;
    let len0 = c0.saves@.len() as int;
    // identify the witnesses of the three steps with `ci`
    let ci_s = choose|cj: int|
        #![trigger a0.categories@[cj]]
        {
            &&& active_at(a0, cj)
            &&& app_same_but(a0, a1, cj)
            &&& cat_after_save(a0.categories@[cj], a1.categories@[cj], name, s1)
            &&& kops_of(ops1) == save_kops(
                a0.categories@[cj].name@,
                str_views(a0.categories@[cj].paths@),
                a0.categories@[cj].max as int,
                a0.categories@[cj].paths@.len() as int,
            )
        };
    assert(a0.categories@[ci_s].name@ == a0.categories@[ci].name@);
    assert(ci_s == ci);
    let c1 = a1.categories@[ci];
    assert(c1.paths == c0.paths);
    assert(c1.saves@.len() == len0 + 1);
    assert(c1.saves@.last().real_index == c0.max);
    lemma_save_disk_at(a0, a1, ci, name, s1, ops1, d);
    let d1 = apply_ops(d, kops_of(ops1));
    // the load step targets the last save, which is the one just made
    let ci_l = choose|cj: int|
        #![trigger a1.categories@[cj]]
        {
            &&& active_at(a1, cj)
            &&& app_same_but(a1, a2, cj)
            &&& a1.categories@[cj].saves@.len() > 0
            &&& cat_marked(a1.categories@[cj], a2.categories@[cj], s2)
            &&& kops_of(ops2) == load_kops(
                a1.categories@[cj].name@,
                str_views(a1.categories@[cj].paths@),
                a1.categories@[cj].saves@.last().real_index as int,
                a1.categories@[cj].auto is Some,
            )
        };
    assert(active_at(a1, ci)) by {
        assert(a1.current == a0.current);
        assert(a1.categories@[ci].name@ == cat);
    }
    assert(a1.categories@[ci_l].name@ == a1.categories@[ci].name@);
    assert(ci_l == ci);
    assert(str_views(c1.paths@) =~= views) by {
        assert(c1.paths == c0.paths);
    }
    assert(distinct_paths(c1)) by {
        assert(c1.paths == c0.paths);
    }
    assert(c1.saves@.last() == c1.saves@[len0]);
    theorem_load_disk(a1, a2, ci, len0, s2, ops2, d1);
    let d2 = apply_ops(d1, kops_of(ops2));
    let c2 = a2.categories@[ci];
    assert(c2.paths == c1.paths);
    assert(c2.saves == c1.saves);
    // the rotation step
    let ci_r = choose|cj: int|
        #![trigger a2.categories@[cj]]
        {
            &&& active_at(a2, cj)
            &&& app_same_but(a2, a3, cj)
            &&& a2.categories@[cj].auto is Some
            &&& cat_marked(a2.categories@[cj], a3.categories@[cj], s3)
            &&& kops_of(ops3) == rotate_kops(
                a2.categories@[cj].name@,
                str_views(a2.categories@[cj].paths@),
                a2.categories@[cj].paths@.len() as int,
            )
        };
    assert(active_at(a2, ci)) by {
        assert(a2.current == a1.current);
        assert(a2.categories@[ci].name@ == cat);
    }
    assert(a2.categories@[ci_r].name@ == a2.categories@[ci].name@);
    assert(ci_r == ci);
    assert(str_views(c2.paths@) =~= views) by {
        assert(c2.paths == c0.paths);
    }
    assert(distinct_paths(c2)) by {
        assert(c2.paths == c0.paths);
    }
    theorem_rotate_disk(a2, a3, ci, s3, ops3, d2);
    let d3 = apply_ops(d2, kops_of(ops3));
    // chase each tracked tree through the three plans
    assert forall|q: int|
        0 <= q < pcount implies (#[trigger] d3.contains_key(
        Key::Source(a0.categories@[ci].paths@[q]@),
    ) && d3[Key::Source(a0.categories@[ci].paths@[q]@)] == d[Key::Source(
        a0.categories@[ci].paths@[q]@,
    )]) by {
        let qq = q + 1;
        let x = views[qq - 1];
        assert(x == a0.categories@[ci].paths@[q]@);
        // the save plan leaves the sources alone
        assert(!save_writes(cat, idx, pcount, Key::Source(x)));
        assert(d.contains_key(Key::Source(x)));
        assert(apply_ops(d, save_kops(cat, views, idx, pcount)).contains_key(Key::Source(x))
            <==> d.contains_key(Key::Source(x)));
        assert(d.contains_key(Key::Source(x)) ==> apply_ops(d, save_kops(cat, views, idx, pcount))[Key::Source(
            x,
        )] == d[Key::Source(x)]);
        assert(d1[Key::Source(x)] == d[Key::Source(x)]);
        // the load plan parks the source in the autosave slot
        assert(apply_ops(d1, kops_of(ops2)).contains_key(Key::Auto(cat, qq)));
        assert(apply_ops(d1, kops_of(ops2))[Key::Auto(cat, qq)] == d1[Key::Source(views[qq - 1])]);
        assert(d2[Key::Auto(cat, qq)] == d[Key::Source(x)]);
        // the rotation brings it back to the source location
        assert(apply_ops(d2, kops_of(ops3)).contains_key(Key::Source(views[qq - 1])));
        assert(apply_ops(d2, kops_of(ops3))[Key::Source(views[qq - 1])] == d2[Key::Auto(cat, qq)]);
        assert(d3[Key::Source(x)] == d[Key::Source(x)]);
    }
}

/// The ledger/disk invariant is preserved by `save`.
pub proof fn theorem_save_disk<T>(
    a0: App,
    a1: App,
    name: Option<String>,
    stamp: Seq<char>,
    ops: Seq<DiskOp>,
    d: Map<Key, T>,
)
    requires
        app_wf(a0),
        save_ok(a0, a1, name, stamp, ops),
        disk_ok(a0, d),
    ensures
        ops_valid(d, kops_of(ops)),
        disk_ok(a1, apply_ops(d, kops_of(ops))),
{
    let ci = choose|ci: int|
        #![trigger a0.categories@[ci]]
        {
            &&& active_at(a0, ci)
            &&& app_same_but(a0, a1, ci)
            &&& cat_after_save(a0.categories@[ci], a1.categories@[ci], name, stamp)
            &&& kops_of(ops) == save_kops(
                a0.categories@[ci].name@,
                str_views(a0.categories@[ci].paths@),
                a0.categories@[ci].max as int,
                a0.categories@[ci].paths@.len() as int,
            )
        };
    lemma_save_disk_at(a0, a1, ci, name, stamp, ops, d);
}

/// The ledger/disk invariant is preserved by `remove` of the save at
/// position `i` of the category at `ci`: the plan deletes exactly that
/// save's numbered slots and cannot fail on a consistent filesystem.
pub proof fn lemma_remove_disk_at<T>(
    a0: App,
    a1: App,
    ci: int,
    i: int,
    token: Seq<char>,
    ops: Seq<DiskOp>,
    d: Map<Key, T>,
)
    requires
        app_wf(a0),
        remove_ok_at(a0, a1, token, ops, ci, i),
        disk_ok(a0, d),
    ensures
        ops_valid(d, kops_of(ops)),
        disk_ok(a1, apply_ops(d, kops_of(ops))),
{
    let c0 = a0.categories@[ci];
    let c1 = a1.categories@[ci];
    let cat = c0.name@;
    let idx = c0.saves@[i].real_index as int;
    let pcount = c0.paths@.len() as int;
    assert(cat_wf(c0));
    assert(0 <= i < c0.saves@.len());
    assert forall|q: int|
        1 <= q <= pcount implies #[trigger] d.contains_key(Key::Slot(cat, q, idx)) by {
        assert(a0.categories@[ci].saves@[i].real_index == idx);
        assert(slot_live(a0, cat, q, idx));
    }
    lemma_remove_effect(d, cat, idx, pcount);
    let d1 = apply_ops(d, kops_of(ops));
    assert(d1 == apply_ops(d, remove_kops(cat, idx, pcount)));
    assert(c1.saves@ == c0.saves@.remove(i));
    assert forall|k: int| 0 <= k < c1.saves@.len() implies #[trigger] c1.saves@[k] == (if k < i {
        c0.saves@[k]
    } else {
        c0.saves@[k + 1]
    }) by {}
    assert forall|cj: int, q: int|
        0 <= cj < a1.categories@.len() && 0 <= q < a1.categories@[cj].paths@.len() implies d1.contains_key(
        Key::Source(#[trigger] a1.categories@[cj].paths@[q]@),
    ) by {
        if cj != ci {
            assert(a1.categories@[cj] == a0.categories@[cj]);
        } else {
            assert(c1.paths == c0.paths);
        }
        assert(d.contains_key(Key::Source(a0.categories@[cj].paths@[q]@)));
        assert(!save_writes(cat, idx, pcount, Key::Source(a1.categories@[cj].paths@[q]@)));
    }
    assert forall|cat2: Seq<char>, p2: int, r: int|
        #[trigger] d1.contains_key(Key::Slot(cat2, p2, r)) <==> slot_live(a1, cat2, p2, r) by {
        if cat2 == cat && r == idx && 1 <= p2 <= pcount {
            assert(!apply_ops(d, remove_kops(cat, idx, pcount)).contains_key(
                Key::Slot(cat, p2, idx),
            ));
            if slot_live(a1, cat2, p2, r) {
                let (ci2, k) = choose|ci2: int, k: int|
                    #![trigger a1.categories@[ci2].saves@[k]]
                    {
                        &&& 0 <= ci2 < a1.categories@.len()
                        &&& a1.categories@[ci2].name@ == cat2
                        &&& 1 <= p2 <= a1.categories@[ci2].paths@.len()
                        &&& 0 <= k < a1.categories@[ci2].saves@.len()
                        &&& a1.categories@[ci2].saves@[k].real_index == r
                    };
                assert(a1.categories@[ci2].name@ == a1.categories@[ci].name@);
                assert(ci2 == ci);
                let k0: int = if k < i { k } else { k + 1 };
                assert(c0.saves@[k0].real_index == idx);
                assert(k0 != i);
                assert(c0.saves@[i].real_index == idx);
                assert(false);
            }
        } else {
            assert(!save_writes(cat, idx, pcount, Key::Slot(cat2, p2, r)));
            assert(d1.contains_key(Key::Slot(cat2, p2, r)) <==> d.contains_key(
                Key::Slot(cat2, p2, r),
            ));
            if slot_live(a0, cat2, p2, r) {
                let (ci2, k) = choose|ci2: int, k: int|
                    #![trigger a0.categories@[ci2].saves@[k]]
                    {
                        &&& 0 <= ci2 < a0.categories@.len()
                        &&& a0.categories@[ci2].name@ == cat2
                        &&& 1 <= p2 <= a0.categories@[ci2].paths@.len()
                        &&& 0 <= k < a0.categories@[ci2].saves@.len()
                        &&& a0.categories@[ci2].saves@[k].real_index == r
                    };
                if ci2 == ci {
                    assert(cat2 == cat);
                    assert(c0.saves@[k].real_index == r);
                    assert(k != i) by {
                        if k == i {
                            assert(r == idx);
                            assert(c1.paths == c0.paths);
                            assert(false);
                        }
                    }
                    let k1: int = if k < i { k } else { k - 1 };
                    assert(c1.saves@[k1] == c0.saves@[k]);
                    assert(c1.paths == c0.paths);
                    assert(a1.categories@[ci].saves@[k1].real_index == r);
                } else {
                    assert(a1.categories@[ci2] == a0.categories@[ci2]);
                    assert(a1.categories@[ci2].saves@[k].real_index == r);
                }
                assert(slot_live(a1, cat2, p2, r));
            }
            if slot_live(a1, cat2, p2, r) {
                let (ci2, k) = choose|ci2: int, k: int|
                    #![trigger a1.categories@[ci2].saves@[k]]
                    {
                        &&& 0 <= ci2 < a1.categories@.len()
                        &&& a1.categories@[ci2].name@ == cat2
                        &&& 1 <= p2 <= a1.categories@[ci2].paths@.len()
                        &&& 0 <= k < a1.categories@[ci2].saves@.len()
                        &&& a1.categories@[ci2].saves@[k].real_index == r
                    };
                if ci2 == ci {
                    let k0: int = if k < i { k } else { k + 1 };
                    assert(c1.saves@[k] == c0.saves@[k0]);
                    assert(c1.paths == c0.paths);
                    assert(a0.categories@[ci].saves@[k0].real_index == r);
                } else {
                    assert(a1.categories@[ci2] == a0.categories@[ci2]);
                    assert(a0.categories@[ci2].saves@[k].real_index == r);
                }
                assert(slot_live(a0, cat2, p2, r));
            }
        }
    }
    assert forall|cat2: Seq<char>, p2: int|
        #[trigger] d1.contains_key(Key::Auto(cat2, p2)) <==> auto_live(a1, cat2, p2) by {
        assert(!save_writes(cat, idx, pcount, Key::Auto(cat2, p2)));
        assert(d1.contains_key(Key::Auto(cat2, p2)) <==> d.contains_key(Key::Auto(cat2, p2)));
        if auto_live(a0, cat2, p2) {
            let ci2 = choose|ci2: int|
                #![trigger a0.categories@[ci2]]
                {
                    &&& 0 <= ci2 < a0.categories@.len()
                    &&& a0.categories@[ci2].name@ == cat2
                    &&& a0.categories@[ci2].auto is Some
                    &&& 1 <= p2 <= a0.categories@[ci2].paths@.len()
                };
            if ci2 == ci {
                assert(c1.auto == c0.auto);
                assert(c1.paths == c0.paths);
                assert(a1.categories@[ci].name@ == cat2);
            } else {
                assert(a1.categories@[ci2] == a0.categories@[ci2]);
            }
            assert(auto_live(a1, cat2, p2));
        }
        if auto_live(a1, cat2, p2) {
            let ci2 = choose|ci2: int|
                #![trigger a1.categories@[ci2]]
                {
                    &&& 0 <= ci2 < a1.categories@.len()
                    &&& a1.categories@[ci2].name@ == cat2
                    &&& a1.categories@[ci2].auto is Some
                    &&& 1 <= p2 <= a1.categories@[ci2].paths@.len()
                };
            if ci2 == ci {
                assert(c0.auto is Some);
                assert(c1.paths == c0.paths);
                assert(a0.categories@[ci].name@ == cat2);
            } else {
                assert(a1.categories@[ci2] == a0.categories@[ci2]);
            }
            assert(auto_live(a0, cat2, p2));
        }
    }
    assert forall|cat2: Seq<char>, p2: int|
        !(#[trigger] d1.contains_key(Key::Holding(cat2, p2))) by {
        assert(!save_writes(cat, idx, pcount, Key::Holding(cat2, p2)));
        assert(d1.contains_key(Key::Holding(cat2, p2)) <==> d.contains_key(
            Key::Holding(cat2, p2),
        ));
    }
}

/// The ledger/disk invariant is preserved by `remove`.
pub proof fn theorem_remove_disk<T>(
    a0: App,
    a1: App,
    token: Seq<char>,
    ops: Seq<DiskOp>,
    d: Map<Key, T>,
)
    requires
        app_wf(a0),
        remove_ok(a0, a1, token, ops),
        disk_ok(a0, d),
    ensures
        ops_valid(d, kops_of(ops)),
        disk_ok(a1, apply_ops(d, kops_of(ops))),
{
    let (ci, i) = choose|ci: int, i: int| #[trigger] remove_ok_at(a0, a1, token, ops, ci, i);
    lemma_remove_disk_at(a0, a1, ci, i, token, ops, d);
}

/// The ledger/disk invariant is preserved by `overwrite` of the save at
/// position `i` of the category at `ci`: the plan parks the old slot
/// content as the autosave, recaptures the slot, and cannot fail on a
/// consistent filesystem.
pub proof fn lemma_overwrite_disk_at<T>(
    a0: App,
    a1: App,
    ci: int,
    i: int,
    token: Seq<char>,
    stamp: Seq<char>,
    ops: Seq<DiskOp>,
    d: Map<Key, T>,
)
    requires
        app_wf(a0),
        overwrite_ok_at(a0, a1, token, stamp, ops, ci, i),
        disk_ok(a0, d),
    ensures
        ops_valid(d, kops_of(ops)),
        disk_ok(a1, apply_ops(d, kops_of(ops))),
{
    let c0 = a0.categories@[ci];
    let c1 = a1.categories@[ci];
    let cat = c0.name@;
    let views = str_views(c0.paths@);
    let idx = c0.saves@[i].real_index as int;
    let pcount = c0.paths@.len() as int;
    let marker = c0.auto is Some;
    assert(cat_wf(c0));
    assert(views.len() == pcount);
    assert forall|q: int| 0 <= q < pcount implies d.contains_key(
        Key::Source(#[trigger] views[q]),
    ) by {
        assert(views[q] == c0.paths@[q]@);
        assert(d.contains_key(Key::Source(a0.categories@[ci].paths@[q]@)));
    }
    assert forall|q: int|
        1 <= q <= pcount implies #[trigger] d.contains_key(Key::Slot(cat, q, idx)) by {
        assert(a0.categories@[ci].saves@[i].real_index == idx);
        assert(slot_live(a0, cat, q, idx));
    }
    assert forall|q: int|
        1 <= q <= pcount implies (#[trigger] d.contains_key(Key::Auto(cat, q)) <==> marker) by {
        if marker {
            assert(auto_live(a0, cat, q));
        }
        if d.contains_key(Key::Auto(cat, q)) {
            assert(auto_live(a0, cat, q));
            let ci2 = choose|ci2: int|
                #![trigger a0.categories@[ci2]]
                {
                    &&& 0 <= ci2 < a0.categories@.len()
                    &&& a0.categories@[ci2].name@ == cat
                    &&& a0.categories@[ci2].auto is Some
                    &&& 1 <= q <= a0.categories@[ci2].paths@.len()
                };
            assert(a0.categories@[ci2].name@ == a0.categories@[ci].name@);
            assert(ci2 == ci);
        }
    }
    lemma_overwrite_effect(d, cat, views, idx, marker, pcount);
    let d1 = apply_ops(d, kops_of(ops));
    assert(d1 == apply_ops(d, overwrite_kops(cat, views, idx, marker, pcount)));
    assert forall|cj: int, q: int|
        0 <= cj < a1.categories@.len() && 0 <= q < a1.categories@[cj].paths@.len() implies d1.contains_key(
        Key::Source(#[trigger] a1.categories@[cj].paths@[q]@),
    ) by {
        if cj != ci {
            assert(a1.categories@[cj] == a0.categories@[cj]);
        } else {
            assert(c1.paths == c0.paths);
        }
        assert(d.contains_key(Key::Source(a0.categories@[cj].paths@[q]@)));
        assert(!overwrite_writes(cat, idx, pcount, Key::Source(a1.categories@[cj].paths@[q]@)));
    }
    assert forall|cat2: Seq<char>, p2: int, r: int|
        #[trigger] d1.contains_key(Key::Slot(cat2, p2, r)) <==> slot_live(a1, cat2, p2, r) by {
        if cat2 == cat && r == idx && 1 <= p2 <= pcount {
            assert(apply_ops(d, overwrite_kops(cat, views, idx, marker, pcount)).contains_key(
                Key::Slot(cat, p2, idx),
            ));
            assert(c1.saves@[i].real_index == c0.saves@[i].real_index);
            assert(c1.paths == c0.paths);
            assert(a1.categories@[ci].saves@[i].real_index == r);
            assert(slot_live(a1, cat2, p2, r));
        } else {
            assert(!overwrite_writes(cat, idx, pcount, Key::Slot(cat2, p2, r)));
            assert(d1.contains_key(Key::Slot(cat2, p2, r)) <==> d.contains_key(
                Key::Slot(cat2, p2, r),
            ));
            if slot_live(a0, cat2, p2, r) {
                let (ci2, k) = choose|ci2: int, k: int|
                    #![trigger a0.categories@[ci2].saves@[k]]
                    {
                        &&& 0 <= ci2 < a0.categories@.len()
                        &&& a0.categories@[ci2].name@ == cat2
                        &&& 1 <= p2 <= a0.categories@[ci2].paths@.len()
                        &&& 0 <= k < a0.categories@[ci2].saves@.len()
                        &&& a0.categories@[ci2].saves@[k].real_index == r
                    };
                if ci2 == ci {
                    assert(c1.paths == c0.paths);
                    if k == i {
                        assert(c1.saves@[i].real_index == c0.saves@[i].real_index);
                        assert(a1.categories@[ci].saves@[k].real_index == r);
                    } else {
                        assert(c1.saves@[k] == c0.saves@[k]);
                        assert(a1.categories@[ci].saves@[k].real_index == r);
                    }
                } else {
                    assert(a1.categories@[ci2] == a0.categories@[ci2]);
                    assert(a1.categories@[ci2].saves@[k].real_index == r);
                }
                assert(slot_live(a1, cat2, p2, r));
            }
            if slot_live(a1, cat2, p2, r) {
                let (ci2, k) = choose|ci2: int, k: int|
                    #![trigger a1.categories@[ci2].saves@[k]]
                    {
                        &&& 0 <= ci2 < a1.categories@.len()
                        &&& 0 <= k < a1.categories@[ci2].saves@.len()
                        &&& a1.categories@[ci2].name@ == cat2
                        &&& 1 <= p2 <= a1.categories@[ci2].paths@.len()
                        &&& a1.categories@[ci2].saves@[k].real_index == r
                    };
                if ci2 == ci {
                    assert(c1.paths == c0.paths);
                    if k == i {
                        assert(c1.saves@[i].real_index == c0.saves@[i].real_index);
                        assert(a0.categories@[ci].saves@[k].real_index == r);
                    } else {
                        assert(c1.saves@[k] == c0.saves@[k]);
                        assert(a0.categories@[ci].saves@[k].real_index == r);
                    }
                } else {
                    assert(a1.categories@[ci2] == a0.categories@[ci2]);
                    assert(a0.categories@[ci2].saves@[k].real_index == r);
                }
                assert(slot_live(a0, cat2, p2, r));
            }
        }
    }
    assert forall|cat2: Seq<char>, p2: int|
        #[trigger] d1.contains_key(Key::Auto(cat2, p2)) <==> auto_live(a1, cat2, p2) by {
        if cat2 == cat && 1 <= p2 <= pcount {
            assert(apply_ops(d, overwrite_kops(cat, views, idx, marker, pcount)).contains_key(
                Key::Auto(cat, p2),
            ));
            assert(c1.auto is Some);
            assert(c1.paths == c0.paths);
            assert(a1.categories@[ci].name@ == cat2);
            assert(auto_live(a1, cat2, p2));
        } else {
            assert(!overwrite_writes(cat, idx, pcount, Key::Auto(cat2, p2)));
            assert(d1.contains_key(Key::Auto(cat2, p2)) <==> d.contains_key(Key::Auto(cat2, p2)));
            if auto_live(a0, cat2, p2) {
                let ci2 = choose|ci2: int|
                    #![trigger a0.categories@[ci2]]
                    {
                        &&& 0 <= ci2 < a0.categories@.len()
                        &&& a0.categories@[ci2].name@ == cat2
                        &&& a0.categories@[ci2].auto is Some
                        &&& 1 <= p2 <= a0.categories@[ci2].paths@.len()
                    };
                if ci2 == ci {
                    assert(c1.auto is Some);
                    assert(c1.paths == c0.paths);
                    assert(a1.categories@[ci].name@ == cat2);
                } else {
                    assert(a1.categories@[ci2] == a0.categories@[ci2]);
                }
                assert(auto_live(a1, cat2, p2));
            }
            if auto_live(a1, cat2, p2) {
                let ci2 = choose|ci2: int|
                    #![trigger a1.categories@[ci2]]
                    {
                        &&& 0 <= ci2 < a1.categories@.len()
                        &&& a1.categories@[ci2].name@ == cat2
                        &&& a1.categories@[ci2].auto is Some
                        &&& 1 <= p2 <= a1.categories@[ci2].paths@.len()
                    };
                if ci2 == ci {
                    assert(c1.paths == c0.paths);
                    assert(false);
                } else {
                    assert(a1.categories@[ci2] == a0.categories@[ci2]);
                    assert(auto_live(a0, cat2, p2));
                }
            }
        }
    }
    assert forall|cat2: Seq<char>, p2: int|
        !(#[trigger] d1.contains_key(Key::Holding(cat2, p2))) by {
        assert(!overwrite_writes(cat, idx, pcount, Key::Holding(cat2, p2)));
        assert(d1.contains_key(Key::Holding(cat2, p2)) <==> d.contains_key(
            Key::Holding(cat2, p2),
        ));
    }
}

/// The ledger/disk invariant is preserved by `overwrite`.
pub proof fn theorem_overwrite_disk<T>(
    a0: App,
    a1: App,
    token: Seq<char>,
    stamp: Seq<char>,
    ops: Seq<DiskOp>,
    d: Map<Key, T>,
)
    requires
        app_wf(a0),
        overwrite_ok(a0, a1, token, stamp, ops),
        disk_ok(a0, d),
    ensures
        ops_valid(d, kops_of(ops)),
        disk_ok(a1, apply_ops(d, kops_of(ops))),
{
    let (ci, i) = choose|ci: int, i: int|
        #[trigger] overwrite_ok_at(a0, a1, token, stamp, ops, ci, i);
    lemma_overwrite_disk_at(a0, a1, ci, i, token, stamp, ops, d);
}

/// The ledger/disk invariant is preserved by `delete`: every numbered
/// slot of the doomed category and its autosave slots disappear, and the
/// plan cannot fail on a consistent filesystem.
pub proof fn theorem_delete_disk<T>(
    a0: App,
    a1: App,
    name: Seq<char>,
    ops: Seq<DiskOp>,
    d: Map<Key, T>,
)
    requires
        app_wf(a0),
        delete_ok(a0, a1, name, ops),
        disk_ok(a0, d),
    ensures
        ops_valid(d, kops_of(ops)),
        disk_ok(a1, apply_ops(d, kops_of(ops))),
{
    let ci = choose|ci: int|
        #![trigger a0.categories@[ci]]
        {
            &&& 0 <= ci < a0.categories@.len()
            &&& a0.categories@[ci].name@ == name
            &&& a1.categories@ == a0.categories@.remove(ci)
            &&& (if (a0.current matches Some(cur) && cur@ == name) {
                a1.current is None
            } else {
                a1.current == a0.current
            })
            &&& kops_of(ops) == delete_kops(
                name,
                idxs_of(a0.categories@[ci].saves@),
                a0.categories@[ci].paths@.len() as int,
                a0.categories@[ci].auto is Some,
            )
        };
    let c0 = a0.categories@[ci];
    let cat = c0.name@;
    let idxs = idxs_of(c0.saves@);
    let pcount = c0.paths@.len() as int;
    let scount = c0.saves@.len() as int;
    let marker = c0.auto is Some;
    assert(cat_wf(c0));
    assert(idxs.len() == scount);
    assert forall|j: int| 0 <= j < scount implies #[trigger] idxs[j] == c0.saves@[j].real_index by {}
    assert forall|j1: int, j2: int|
        0 <= j1 < j2 < scount implies #[trigger] idxs[j1] != #[trigger] idxs[j2] by {
        assert(c0.saves@[j1].real_index < c0.saves@[j2].real_index);
    }
    assert forall|j: int, q: int|
        0 <= j < scount && 1 <= q <= pcount implies #[trigger] d.contains_key(
        Key::Slot(cat, q, idxs[j]),
    ) by {
        assert(a0.categories@[ci].saves@[j].real_index == idxs[j]);
        assert(slot_live(a0, cat, q, idxs[j]));
    }
    lemma_delete_saves_effect(d, cat, idxs, pcount, scount);
    let slots_plan = delete_saves_kops(cat, idxs, pcount, scount);
    let ds = apply_ops(d, slots_plan);
    let d1 = apply_ops(d, kops_of(ops));
    if marker {
        lemma_apply_concat(d, slots_plan, evict_kops(cat, pcount));
        lemma_valid_concat(d, slots_plan, evict_kops(cat, pcount));
        assert forall|q: int|
            1 <= q <= pcount implies #[trigger] ds.contains_key(Key::Auto(cat, q)) by {
            assert(auto_live(a0, cat, q));
            assert(d.contains_key(Key::Auto(cat, q)));
            assert(!delete_writes(cat, idxs, scount, pcount, Key::Auto(cat, q)));
            assert(apply_ops(d, delete_saves_kops(cat, idxs, pcount, scount)).contains_key(
                Key::Auto(cat, q),
            ) <==> d.contains_key(Key::Auto(cat, q)));
        }
        lemma_evict_effect(ds, cat, pcount);
        assert(kops_of(ops) == slots_plan + evict_kops(cat, pcount));
        assert(d1 == apply_ops(ds, evict_kops(cat, pcount)));
        assert(ops_valid(d, kops_of(ops)));
    } else {
        assert(kops_of(ops) =~= slots_plan);
        assert(d1 == ds);
    }
    // every key of the doomed category is gone; everything else is as before
    assert forall|k: Key|
        #![trigger d1.contains_key(k)]
        d1.contains_key(k) <==> (d.contains_key(k) && !delete_writes(
            cat,
            idxs,
            scount,
            pcount,
            k,
        ) && !(k matches Key::Auto(c2, q) && c2 == cat && 1 <= q <= pcount && marker)) by {
        if marker {
            if delete_writes(cat, idxs, scount, pcount, k) {
                match k {
                    Key::Slot(c2, q, i2) => {
                        let j = choose|j: int| 0 <= j < scount && #[trigger] idxs[j] == i2;
                        assert(!ds.contains_key(Key::Slot(cat, q, idxs[j])));
                        assert(!auto_writes(cat, pcount, k));
                        assert(apply_ops(ds, evict_kops(cat, pcount)).contains_key(k)
                            <==> ds.contains_key(k));
                    },
                    _ => {},
                }
            } else {
                match k {
                    Key::Auto(c2, q) => {
                        if c2 == cat && 1 <= q <= pcount {
                            assert(!apply_ops(ds, evict_kops(cat, pcount)).contains_key(
                                Key::Auto(cat, q),
                            ));
                        } else {
                            assert(!auto_writes(cat, pcount, k));
                            assert(apply_ops(
                                d,
                                delete_saves_kops(cat, idxs, pcount, scount),
                            ).contains_key(k) <==> d.contains_key(k));
                            assert(apply_ops(ds, evict_kops(cat, pcount)).contains_key(k)
                                <==> ds.contains_key(k));
                        }
                    },
                    _ => {
                        assert(!auto_writes(cat, pcount, k));
                        assert(apply_ops(
                            d,
                            delete_saves_kops(cat, idxs, pcount, scount),
                        ).contains_key(k) <==> d.contains_key(k));
                        assert(apply_ops(ds, evict_kops(cat, pcount)).contains_key(k)
                            <==> ds.contains_key(k));
                    },
                }
            }
        } else {
            if delete_writes(cat, idxs, scount, pcount, k) {
                match k {
                    Key::Slot(c2, q, i2) => {
                        let j = choose|j: int| 0 <= j < scount && #[trigger] idxs[j] == i2;
                        assert(!ds.contains_key(Key::Slot(cat, q, idxs[j])));
                    },
                    _ => {},
                }
            } else {
                assert(apply_ops(d, delete_saves_kops(cat, idxs, pcount, scount)).contains_key(k)
                    <==> d.contains_key(k));
            }
        }
    }
    assert(a1.categories@ == a0.categories@.remove(ci));
    assert forall|cj: int| 0 <= cj < a1.categories@.len() implies #[trigger] a1.categories@[cj]
        == (if cj < ci {
        a0.categories@[cj]
    } else {
        a0.categories@[cj + 1]
    }) by {}
    assert forall|cj: int, q: int|
        0 <= cj < a1.categories@.len() && 0 <= q < a1.categories@[cj].paths@.len() implies d1.contains_key(
        Key::Source(#[trigger] a1.categories@[cj].paths@[q]@),
    ) by {
        let cj0: int = if cj < ci { cj } else { cj + 1 };
        assert(a1.categories@[cj] == a0.categories@[cj0]);
        assert(d.contains_key(Key::Source(a0.categories@[cj0].paths@[q]@)));
        assert(!delete_writes(
            cat,
            idxs,
            scount,
            pcount,
            Key::Source(a1.categories@[cj].paths@[q]@),
        ));
    }
    assert forall|cat2: Seq<char>, p2: int, r: int|
        #[trigger] d1.contains_key(Key::Slot(cat2, p2, r)) <==> slot_live(a1, cat2, p2, r) by {
        if slot_live(a0, cat2, p2, r) && cat2 == cat {
            let (ci2, k) = choose|ci2: int, k: int|
                #![trigger a0.categories@[ci2].saves@[k]]
                {
                    &&& 0 <= ci2 < a0.categories@.len()
                    &&& a0.categories@[ci2].name@ == cat2
                    &&& 1 <= p2 <= a0.categories@[ci2].paths@.len()
                    &&& 0 <= k < a0.categories@[ci2].saves@.len()
                    &&& a0.categories@[ci2].saves@[k].real_index == r
                };
            assert(a0.categories@[ci2].name@ == a0.categories@[ci].name@);
            assert(ci2 == ci);
            assert(idxs[k] == r);
            assert(among_int(idxs, scount, r));
            assert(delete_writes(cat, idxs, scount, pcount, Key::Slot(cat2, p2, r)));
            assert(!d1.contains_key(Key::Slot(cat2, p2, r)));
        }
        if d1.contains_key(Key::Slot(cat2, p2, r)) {
            assert(d.contains_key(Key::Slot(cat2, p2, r)));
            assert(slot_live(a0, cat2, p2, r));
            let (ci2, k) = choose|ci2: int, k: int|
                #![trigger a0.categories@[ci2].saves@[k]]
                {
                    &&& 0 <= ci2 < a0.categories@.len()
                    &&& a0.categories@[ci2].name@ == cat2
                    &&& 1 <= p2 <= a0.categories@[ci2].paths@.len()
                    &&& 0 <= k < a0.categories@[ci2].saves@.len()
                    &&& a0.categories@[ci2].saves@[k].real_index == r
                };
            assert(ci2 != ci);
            let cj1: int = if ci2 < ci { ci2 } else { ci2 - 1 };
            assert(a1.categories@[cj1] == a0.categories@[ci2]);
            assert(a1.categories@[cj1].saves@[k].real_index == r);
            assert(slot_live(a1, cat2, p2, r));
        }
        if slot_live(a1, cat2, p2, r) {
            let (ci2, k) = choose|ci2: int, k: int|
                #![trigger a1.categories@[ci2].saves@[k]]
                {
                    &&& 0 <= ci2 < a1.categories@.len()
                    &&& a1.categories@[ci2].name@ == cat2
                    &&& 1 <= p2 <= a1.categories@[ci2].paths@.len()
                    &&& 0 <= k < a1.categories@[ci2].saves@.len()
                    &&& a1.categories@[ci2].saves@[k].real_index == r
                };
            let cj0: int = if ci2 < ci { ci2 } else { ci2 + 1 };
            assert(a1.categories@[ci2] == a0.categories@[cj0]);
            assert(cj0 != ci);
            assert(a0.categories@[cj0].saves@[k].real_index == r);
            assert(slot_live(a0, cat2, p2, r));
            assert(cat2 != cat) by {
                assert(a0.categories@[cj0].name@ == cat2);
            }
            assert(d.contains_key(Key::Slot(cat2, p2, r)));
            assert(!delete_writes(cat, idxs, scount, pcount, Key::Slot(cat2, p2, r)));
            assert(d1.contains_key(Key::Slot(cat2, p2, r)));
        }
    }
    assert forall|cat2: Seq<char>, p2: int|
        #[trigger] d1.contains_key(Key::Auto(cat2, p2)) <==> auto_live(a1, cat2, p2) by {
        if d1.contains_key(Key::Auto(cat2, p2)) {
            assert(d.contains_key(Key::Auto(cat2, p2)));
            assert(auto_live(a0, cat2, p2));
            let ci2 = choose|ci2: int|
                #![trigger a0.categories@[ci2]]
                {
                    &&& 0 <= ci2 < a0.categories@.len()
                    &&& a0.categories@[ci2].name@ == cat2
                    &&& a0.categories@[ci2].auto is Some
                    &&& 1 <= p2 <= a0.categories@[ci2].paths@.len()
                };
            assert(ci2 != ci) by {
                if ci2 == ci {
                    assert(cat2 == cat);
                    assert(marker);
                    assert(false);
                }
            }
            let cj1: int = if ci2 < ci { ci2 } else { ci2 - 1 };
            assert(a1.categories@[cj1] == a0.categories@[ci2]);
            assert(auto_live(a1, cat2, p2));
        }
        if auto_live(a1, cat2, p2) {
            let ci2 = choose|ci2: int|
                #![trigger a1.categories@[ci2]]
                {
                    &&& 0 <= ci2 < a1.categories@.len()
                    &&& a1.categories@[ci2].name@ == cat2
                    &&& a1.categories@[ci2].auto is Some
                    &&& 1 <= p2 <= a1.categories@[ci2].paths@.len()
                };
            let cj0: int = if ci2 < ci { ci2 } else { ci2 + 1 };
            assert(a1.categories@[ci2] == a0.categories@[cj0]);
            assert(cj0 != ci);
            assert(auto_live(a0, cat2, p2));
            assert(d.contains_key(Key::Auto(cat2, p2)));
            assert(cat2 != cat) by {
                assert(a0.categories@[cj0].name@ == cat2);
            }
            assert(!delete_writes(cat, idxs, scount, pcount, Key::Auto(cat2, p2)));
            assert(d1.contains_key(Key::Auto(cat2, p2)));
        }
    }
    assert forall|cat2: Seq<char>, p2: int|
        !(#[trigger] d1.contains_key(Key::Holding(cat2, p2))) by {
        if d1.contains_key(Key::Holding(cat2, p2)) {
            assert(d.contains_key(Key::Holding(cat2, p2)));
            assert(false);
        }
    }
}

/// The ledger/disk invariant is preserved by `update name`: every
/// numbered slot and any autosave slot moves from the old category name
/// to the new one, and the plan cannot fail on a consistent filesystem,
/// since no slot of the unused new name can exist.
pub proof fn theorem_rename_disk<T>(
    a0: App,
    a1: App,
    name: Seq<char>,
    ops: Seq<DiskOp>,
    d: Map<Key, T>,
)
    requires
        app_wf(a0),
        rename_ok(a0, a1, name, ops),
        !has_category(a0, name),
        disk_ok(a0, d),
    ensures
        ops_valid(d, kops_of(ops)),
        disk_ok(a1, apply_ops(d, kops_of(ops))),
{
    let ci = choose|ci: int|
        #![trigger a0.categories@[ci]]
        {
            &&& active_at(a0, ci)
            &&& a1.categories@.len() == a0.categories@.len()
            &&& forall|j: int|
                0 <= j < a0.categories@.len() && j != ci ==> a1.categories@[j]
                    == a0.categories@[j]
            &&& a1.categories@[ci].name@ == name
            &&& a1.categories@[ci].paths == a0.categories@[ci].paths
            &&& a1.categories@[ci].saves == a0.categories@[ci].saves
            &&& a1.categories@[ci].auto == a0.categories@[ci].auto
            &&& a1.categories@[ci].max == a0.categories@[ci].max
            &&& (a1.current matches Some(cur) && cur@ == name)
            &&& kops_of(ops) == rename_kops(
                a0.categories@[ci].name@,
                name,
                idxs_of(a0.categories@[ci].saves@),
                a0.categories@[ci].paths@.len() as int,
                a0.categories@[ci].auto is Some,
            )
        };
    let c0 = a0.categories@[ci];
    let c1 = a1.categories@[ci];
    let cat = c0.name@;
    let idxs = idxs_of(c0.saves@);
    let pcount = c0.paths@.len() as int;
    let scount = c0.saves@.len() as int;
    let marker = c0.auto is Some;
    assert(cat_wf(c0));
    assert(cat != name);
    assert(idxs.len() == scount);
    assert forall|j: int| 0 <= j < scount implies #[trigger] idxs[j] == c0.saves@[j].real_index by {}
    assert forall|j1: int, j2: int|
        0 <= j1 < j2 < scount implies #[trigger] idxs[j1] != #[trigger] idxs[j2] by {
        assert(c0.saves@[j1].real_index < c0.saves@[j2].real_index);
    }
    assert forall|q: int, r: int|
        !(#[trigger] d.contains_key(Key::Slot(name, q, r))) by {
        if d.contains_key(Key::Slot(name, q, r)) {
            assert(slot_live(a0, name, q, r));
            let (ci2, k) = choose|ci2: int, k: int|
                #![trigger a0.categories@[ci2].saves@[k]]
                {
                    &&& 0 <= ci2 < a0.categories@.len()
                    &&& a0.categories@[ci2].name@ == name
                    &&& 1 <= q <= a0.categories@[ci2].paths@.len()
                    &&& 0 <= k < a0.categories@[ci2].saves@.len()
                    &&& a0.categories@[ci2].saves@[k].real_index == r
                };
            assert(has_category(a0, name));
            assert(false);
        }
    }
    assert forall|q: int|
        !(#[trigger] d.contains_key(Key::Auto(name, q))) by {
        if d.contains_key(Key::Auto(name, q)) {
            assert(auto_live(a0, name, q));
            let ci2 = choose|ci2: int|
                #![trigger a0.categories@[ci2]]
                {
                    &&& 0 <= ci2 < a0.categories@.len()
                    &&& a0.categories@[ci2].name@ == name
                    &&& a0.categories@[ci2].auto is Some
                    &&& 1 <= q <= a0.categories@[ci2].paths@.len()
                };
            assert(has_category(a0, name));
            assert(false);
        }
    }
    assert forall|j: int, q: int|
        0 <= j < scount && 1 <= q <= pcount implies #[trigger] d.contains_key(
        Key::Slot(cat, q, idxs[j]),
    ) by {
        assert(a0.categories@[ci].saves@[j].real_index == idxs[j]);
        assert(slot_live(a0, cat, q, idxs[j]));
    }
    lemma_rename_saves_effect(d, cat, name, idxs, pcount, scount);
    let slots_plan = rename_saves_kops(cat, name, idxs, pcount, scount);
    let ds = apply_ops(d, slots_plan);
    let d1 = apply_ops(d, kops_of(ops));
    if marker {
        lemma_apply_concat(d, slots_plan, rename_autos_kops(cat, name, pcount));
        lemma_valid_concat(d, slots_plan, rename_autos_kops(cat, name, pcount));
        assert forall|q: int|
            1 <= q <= pcount implies #[trigger] ds.contains_key(Key::Auto(cat, q)) by {
            assert(auto_live(a0, cat, q));
            assert(d.contains_key(Key::Auto(cat, q)));
            assert(!rename_saves_writes(cat, name, idxs, scount, pcount, Key::Auto(cat, q)));
            assert(apply_ops(d, rename_saves_kops(cat, name, idxs, pcount, scount)).contains_key(
                Key::Auto(cat, q),
            ) <==> d.contains_key(Key::Auto(cat, q)));
        }
        assert forall|q: int|
            1 <= q <= pcount implies !(#[trigger] ds.contains_key(Key::Auto(name, q))) by {
            assert(!d.contains_key(Key::Auto(name, q)));
            assert(!rename_saves_writes(cat, name, idxs, scount, pcount, Key::Auto(name, q)));
            assert(apply_ops(d, rename_saves_kops(cat, name, idxs, pcount, scount)).contains_key(
                Key::Auto(name, q),
            ) <==> d.contains_key(Key::Auto(name, q)));
        }
        lemma_rename_autos_effect(ds, cat, name, pcount);
        assert(kops_of(ops) == slots_plan + rename_autos_kops(cat, name, pcount));
        assert(d1 == apply_ops(ds, rename_autos_kops(cat, name, pcount)));
        assert(ops_valid(d, kops_of(ops)));
    } else {
        assert(kops_of(ops) =~= slots_plan);
        assert(d1 == ds);
    }
    assert forall|cj: int, q: int|
        0 <= cj < a1.categories@.len() && 0 <= q < a1.categories@[cj].paths@.len() implies d1.contains_key(
        Key::Source(#[trigger] a1.categories@[cj].paths@[q]@),
    ) by {
        if cj != ci {
            assert(a1.categories@[cj] == a0.categories@[cj]);
        } else {
            assert(c1.paths == c0.paths);
        }
        assert(d.contains_key(Key::Source(a0.categories@[cj].paths@[q]@)));
        let k = Key::Source(a1.categories@[cj].paths@[q]@);
        assert(!rename_saves_writes(cat, name, idxs, scount, pcount, k));
        assert(apply_ops(d, rename_saves_kops(cat, name, idxs, pcount, scount)).contains_key(k)
            <==> d.contains_key(k));
        if marker {
            assert(!rename_autos_writes(cat, name, pcount, k));
            assert(apply_ops(ds, rename_autos_kops(cat, name, pcount)).contains_key(k)
                <==> ds.contains_key(k));
        }
    }
    assert forall|cat2: Seq<char>, p2: int, r: int|
        #[trigger] d1.contains_key(Key::Slot(cat2, p2, r)) <==> slot_live(a1, cat2, p2, r) by {
        let k = Key::Slot(cat2, p2, r);
        if marker {
            assert(!rename_autos_writes(cat, name, pcount, k));
            assert(apply_ops(ds, rename_autos_kops(cat, name, pcount)).contains_key(k)
                <==> ds.contains_key(k));
        }
        assert(d1.contains_key(k) <==> ds.contains_key(k));
        if cat2 == cat {
            // the old name: every live slot moved away, nothing else was there
            assert(!slot_live(a1, cat, p2, r)) by {
                if slot_live(a1, cat, p2, r) {
                    let (ci2, kk) = choose|ci2: int, kk: int|
                        #![trigger a1.categories@[ci2].saves@[kk]]
                        {
                            &&& 0 <= ci2 < a1.categories@.len()
                            &&& a1.categories@[ci2].name@ == cat
                            &&& 1 <= p2 <= a1.categories@[ci2].paths@.len()
                            &&& 0 <= kk < a1.categories@[ci2].saves@.len()
                            &&& a1.categories@[ci2].saves@[kk].real_index == r
                        };
                    assert(ci2 != ci);
                    assert(a1.categories@[ci2] == a0.categories@[ci2]);
                    assert(a0.categories@[ci2].name@ == a0.categories@[ci].name@);
                    assert(false);
                }
            }
            assert(!ds.contains_key(k)) by {
                if slot_live(a0, cat, p2, r) {
                    let (ci2, kk) = choose|ci2: int, kk: int|
                        #![trigger a0.categories@[ci2].saves@[kk]]
                        {
                            &&& 0 <= ci2 < a0.categories@.len()
                            &&& a0.categories@[ci2].name@ == cat
                            &&& 1 <= p2 <= a0.categories@[ci2].paths@.len()
                            &&& 0 <= kk < a0.categories@[ci2].saves@.len()
                            &&& a0.categories@[ci2].saves@[kk].real_index == r
                        };
                    assert(ci2 == ci);
                    assert(idxs[kk] == r);
                    assert(!apply_ops(d, rename_saves_kops(cat, name, idxs, pcount, scount)).contains_key(
                        Key::Slot(cat, p2, idxs[kk]),
                    ));
                } else {
                    assert(!d.contains_key(k));
                    assert(!rename_saves_writes(cat, name, idxs, scount, pcount, k)) by {
                        if among_int(idxs, scount, r) {
                            let j = choose|j: int| 0 <= j < scount && #[trigger] idxs[j] == r;
                            assert(a0.categories@[ci].saves@[j].real_index == r);
                            assert(1 <= p2 <= pcount ==> slot_live(a0, cat, p2, r));
                        }
                    }
                    assert(apply_ops(d, rename_saves_kops(cat, name, idxs, pcount, scount)).contains_key(
                        k,
                    ) <==> d.contains_key(k));
                }
            }
        } else if cat2 == name {
            // the new name: exactly the moved slots
            if slot_live(a1, name, p2, r) {
                let (ci2, kk) = choose|ci2: int, kk: int|
                    #![trigger a1.categories@[ci2].saves@[kk]]
                    {
                        &&& 0 <= ci2 < a1.categories@.len()
                        &&& a1.categories@[ci2].name@ == name
                        &&& 1 <= p2 <= a1.categories@[ci2].paths@.len()
                        &&& 0 <= kk < a1.categories@[ci2].saves@.len()
                        &&& a1.categories@[ci2].saves@[kk].real_index == r
                    };
                assert(ci2 == ci) by {
                    if ci2 != ci {
                        assert(a1.categories@[ci2] == a0.categories@[ci2]);
                        assert(has_category(a0, name));
                        assert(false);
                    }
                }
                assert(c1.saves == c0.saves);
                assert(c1.paths == c0.paths);
                assert(idxs[kk] == r);
                assert(apply_ops(d, rename_saves_kops(cat, name, idxs, pcount, scount)).contains_key(
                    Key::Slot(name, p2, idxs[kk]),
                ));
                assert(ds.contains_key(k));
            }
            if ds.contains_key(k) {
                assert(rename_saves_writes(cat, name, idxs, scount, pcount, k) || d.contains_key(
                    k,
                )) by {
                    if !rename_saves_writes(cat, name, idxs, scount, pcount, k) {
                        assert(apply_ops(
                            d,
                            rename_saves_kops(cat, name, idxs, pcount, scount),
                        ).contains_key(k) <==> d.contains_key(k));
                    }
                }
                assert(rename_saves_writes(cat, name, idxs, scount, pcount, k));
                assert(among_int(idxs, scount, r));
                let j = choose|j: int| 0 <= j < scount && #[trigger] idxs[j] == r;
                assert(a1.categories@[ci].saves@[j].real_index == r);
                assert(c1.paths == c0.paths);
                assert(slot_live(a1, name, p2, r));
            }
        } else {
            assert(!rename_saves_writes(cat, name, idxs, scount, pcount, k));
            assert(apply_ops(d, rename_saves_kops(cat, name, idxs, pcount, scount)).contains_key(k)
                <==> d.contains_key(k));
            if slot_live(a0, cat2, p2, r) {
                let (ci2, kk) = choose|ci2: int, kk: int|
                    #![trigger a0.categories@[ci2].saves@[kk]]
                    {
                        &&& 0 <= ci2 < a0.categories@.len()
                        &&& a0.categories@[ci2].name@ == cat2
                        &&& 1 <= p2 <= a0.categories@[ci2].paths@.len()
                        &&& 0 <= kk < a0.categories@[ci2].saves@.len()
                        &&& a0.categories@[ci2].saves@[kk].real_index == r
                    };
                assert(ci2 != ci);
                assert(a1.categories@[ci2] == a0.categories@[ci2]);
                assert(a1.categories@[ci2].saves@[kk].real_index == r);
                assert(slot_live(a1, cat2, p2, r));
            }
            if slot_live(a1, cat2, p2, r) {
                let (ci2, kk) = choose|ci2: int, kk: int|
                    #![trigger a1.categories@[ci2].saves@[kk]]
                    {
                        &&& 0 <= ci2 < a1.categories@.len()
                        &&& a1.categories@[ci2].name@ == cat2
                        &&& 1 <= p2 <= a1.categories@[ci2].paths@.len()
                        &&& 0 <= kk < a1.categories@[ci2].saves@.len()
                        &&& a1.categories@[ci2].saves@[kk].real_index == r
                    };
                assert(ci2 != ci);
                assert(a1.categories@[ci2] == a0.categories@[ci2]);
                assert(a0.categories@[ci2].saves@[kk].real_index == r);
                assert(slot_live(a0, cat2, p2, r));
            }
        }
    }
    assert forall|cat2: Seq<char>, p2: int|
        #[trigger] d1.contains_key(Key::Auto(cat2, p2)) <==> auto_live(a1, cat2, p2) by {
        let k = Key::Auto(cat2, p2);
        assert(!rename_saves_writes(cat, name, idxs, scount, pcount, k));
        assert(apply_ops(d, rename_saves_kops(cat, name, idxs, pcount, scount)).contains_key(k)
            <==> d.contains_key(k));
        if marker {
            if cat2 == cat && 1 <= p2 <= pcount {
                assert(!apply_ops(ds, rename_autos_kops(cat, name, pcount)).contains_key(
                    Key::Auto(cat, p2),
                ));
                assert(!auto_live(a1, cat, p2)) by {
                    if auto_live(a1, cat, p2) {
                        let ci2 = choose|ci2: int|
                            #![trigger a1.categories@[ci2]]
                            {
                                &&& 0 <= ci2 < a1.categories@.len()
                                &&& a1.categories@[ci2].name@ == cat
                                &&& a1.categories@[ci2].auto is Some
                                &&& 1 <= p2 <= a1.categories@[ci2].paths@.len()
                            };
                        assert(ci2 != ci);
                        assert(a1.categories@[ci2] == a0.categories@[ci2]);
                        assert(a0.categories@[ci2].name@ == a0.categories@[ci].name@);
                        assert(false);
                    }
                }
            } else if cat2 == name && 1 <= p2 <= pcount {
                assert(apply_ops(ds, rename_autos_kops(cat, name, pcount)).contains_key(
                    Key::Auto(name, p2),
                ));
                assert(c1.auto is Some);
                assert(c1.paths == c0.paths);
                assert(a1.categories@[ci].name@ == name);
                assert(auto_live(a1, name, p2));
            } else {
                assert(!rename_autos_writes(cat, name, pcount, k));
                assert(apply_ops(ds, rename_autos_kops(cat, name, pcount)).contains_key(k)
                    <==> ds.contains_key(k));
                if auto_live(a0, cat2, p2) {
                    let ci2 = choose|ci2: int|
                        #![trigger a0.categories@[ci2]]
                        {
                            &&& 0 <= ci2 < a0.categories@.len()
                            &&& a0.categories@[ci2].name@ == cat2
                            &&& a0.categories@[ci2].auto is Some
                            &&& 1 <= p2 <= a0.categories@[ci2].paths@.len()
                        };
                    if ci2 == ci {
                        assert(c1.paths == c0.paths);
                        assert(c1.auto is Some);
                        assert(a1.categories@[ci].name@ == name);
                        assert(cat2 == cat);
                        assert(false);
                    } else {
                        assert(a1.categories@[ci2] == a0.categories@[ci2]);
                        assert(auto_live(a1, cat2, p2));
                    }
                }
                if auto_live(a1, cat2, p2) {
                    let ci2 = choose|ci2: int|
                        #![trigger a1.categories@[ci2]]
                        {
                            &&& 0 <= ci2 < a1.categories@.len()
                            &&& a1.categories@[ci2].name@ == cat2
                            &&& a1.categories@[ci2].auto is Some
                            &&& 1 <= p2 <= a1.categories@[ci2].paths@.len()
                        };
                    if ci2 == ci {
                        assert(cat2 == name);
                        assert(c1.paths == c0.paths);
                        assert(false);
                    } else {
                        assert(a1.categories@[ci2] == a0.categories@[ci2]);
                        assert(auto_live(a0, cat2, p2));
                    }
                }
            }
        } else {
            if auto_live(a0, cat2, p2) {
                let ci2 = choose|ci2: int|
                    #![trigger a0.categories@[ci2]]
                    {
                        &&& 0 <= ci2 < a0.categories@.len()
                        &&& a0.categories@[ci2].name@ == cat2
                        &&& a0.categories@[ci2].auto is Some
                        &&& 1 <= p2 <= a0.categories@[ci2].paths@.len()
                    };
                if ci2 == ci {
                    assert(false);
                } else {
                    assert(a1.categories@[ci2] == a0.categories@[ci2]);
                    assert(auto_live(a1, cat2, p2));
                }
            }
            if auto_live(a1, cat2, p2) {
                let ci2 = choose|ci2: int|
                    #![trigger a1.categories@[ci2]]
                    {
                        &&& 0 <= ci2 < a1.categories@.len()
                        &&& a1.categories@[ci2].name@ == cat2
                        &&& a1.categories@[ci2].auto is Some
                        &&& 1 <= p2 <= a1.categories@[ci2].paths@.len()
                    };
                if ci2 == ci {
                    assert(c1.auto == c0.auto);
                    assert(false);
                } else {
                    assert(a1.categories@[ci2] == a0.categories@[ci2]);
                    assert(auto_live(a0, cat2, p2));
                }
            }
        }
    }
    assert forall|cat2: Seq<char>, p2: int|
        !(#[trigger] d1.contains_key(Key::Holding(cat2, p2))) by {
        let k = Key::Holding(cat2, p2);
        assert(!rename_saves_writes(cat, name, idxs, scount, pcount, k));
        assert(apply_ops(d, rename_saves_kops(cat, name, idxs, pcount, scount)).contains_key(k)
            <==> d.contains_key(k));
        if marker {
            assert(!rename_autos_writes(cat, name, pcount, k));
            assert(apply_ops(ds, rename_autos_kops(cat, name, pcount)).contains_key(k)
                <==> ds.contains_key(k));
        }
    }
}

/// The ledger/disk invariant only reads the categories, so any command
/// that leaves them untouched — such as `switch` — preserves it with no
/// disk operation at all.
pub proof fn theorem_same_categories_disk<T>(a0: App, a1: App, d: Map<Key, T>)
    requires
        disk_ok(a0, d),
        a1.categories@ == a0.categories@,
    ensures
        disk_ok(a1, d),
{
    assert forall|cat2: Seq<char>, p2: int, r: int|
        #[trigger] d.contains_key(Key::Slot(cat2, p2, r)) <==> slot_live(a1, cat2, p2, r) by {
        assert(slot_live(a0, cat2, p2, r) <==> slot_live(a1, cat2, p2, r)) by {
            assert(forall|ci: int, k: int|
                #![trigger a0.categories@[ci].saves@[k]]
                #![trigger a1.categories@[ci].saves@[k]]
                0 <= ci < a0.categories@.len() ==> a1.categories@[ci] == a0.categories@[ci]);
        }
    }
    assert forall|cat2: Seq<char>, p2: int|
        #[trigger] d.contains_key(Key::Auto(cat2, p2)) <==> auto_live(a1, cat2, p2) by {
        assert(auto_live(a0, cat2, p2) <==> auto_live(a1, cat2, p2)) by {
            assert(forall|ci: int|
                #![trigger a0.categories@[ci]]
                #![trigger a1.categories@[ci]]
                0 <= ci < a0.categories@.len() ==> a1.categories@[ci] == a0.categories@[ci]);
        }
    }
}

/// The ledger/disk invariant is preserved by `create`, whose plan is
/// empty: the new category's sources must exist (the shell checks this
/// before calling), it has no saves and no autosave, and no slot of an
/// unused category name can exist on a consistent filesystem.
pub proof fn theorem_create_disk<T>(a0: App, a1: App, name: Seq<char>, d: Map<Key, T>)
    requires
        app_wf(a0),
        disk_ok(a0, d),
        !has_category(a0, name),
        a1.categories@.len() == a0.categories@.len() + 1,
        forall|j: int| 0 <= j < a0.categories@.len() ==> a1.categories@[j] == a0.categories@[j],
        a1.categories@.last().name@ == name,
        a1.categories@.last().saves@.len() == 0,
        a1.categories@.last().auto is None,
        forall|q: int|
            0 <= q < a1.categories@.last().paths@.len() ==> d.contains_key(
                Key::Source(#[trigger] a1.categories@.last().paths@[q]@),
            ),
    ensures
        disk_ok(a1, d),
{
    let n = a0.categories@.len() as int;
    assert forall|cat2: Seq<char>, p2: int, r: int|
        #[trigger] d.contains_key(Key::Slot(cat2, p2, r)) <==> slot_live(a1, cat2, p2, r) by {
        if slot_live(a0, cat2, p2, r) {
            let (ci2, k) = choose|ci2: int, k: int|
                #![trigger a0.categories@[ci2].saves@[k]]
                {
                    &&& 0 <= ci2 < a0.categories@.len()
                    &&& a0.categories@[ci2].name@ == cat2
                    &&& 1 <= p2 <= a0.categories@[ci2].paths@.len()
                    &&& 0 <= k < a0.categories@[ci2].saves@.len()
                    &&& a0.categories@[ci2].saves@[k].real_index == r
                };
            assert(a1.categories@[ci2] == a0.categories@[ci2]);
            assert(a1.categories@[ci2].saves@[k].real_index == r);
            assert(slot_live(a1, cat2, p2, r));
        }
        if slot_live(a1, cat2, p2, r) {
            let (ci2, k) = choose|ci2: int, k: int|
                #![trigger a1.categories@[ci2].saves@[k]]
                {
                    &&& 0 <= ci2 < a1.categories@.len()
                    &&& a1.categories@[ci2].name@ == cat2
                    &&& 1 <= p2 <= a1.categories@[ci2].paths@.len()
                    &&& 0 <= k < a1.categories@[ci2].saves@.len()
                    &&& a1.categories@[ci2].saves@[k].real_index == r
                };
            assert(ci2 != n) by {
                if ci2 == n {
                    assert(a1.categories@[ci2] == a1.categories@.last());
                    assert(false);
                }
            }
            assert(a1.categories@[ci2] == a0.categories@[ci2]);
            assert(a0.categories@[ci2].saves@[k].real_index == r);
            assert(slot_live(a0, cat2, p2, r));
        }
    }
    assert forall|cat2: Seq<char>, p2: int|
        #[trigger] d.contains_key(Key::Auto(cat2, p2)) <==> auto_live(a1, cat2, p2) by {
        if auto_live(a0, cat2, p2) {
            let ci2 = choose|ci2: int|
                #![trigger a0.categories@[ci2]]
                {
                    &&& 0 <= ci2 < a0.categories@.len()
                    &&& a0.categories@[ci2].name@ == cat2
                    &&& a0.categories@[ci2].auto is Some
                    &&& 1 <= p2 <= a0.categories@[ci2].paths@.len()
                };
            assert(a1.categories@[ci2] == a0.categories@[ci2]);
            assert(auto_live(a1, cat2, p2));
        }
        if auto_live(a1, cat2, p2) {
            let ci2 = choose|ci2: int|
                #![trigger a1.categories@[ci2]]
                {
                    &&& 0 <= ci2 < a1.categories@.len()
                    &&& a1.categories@[ci2].name@ == cat2
                    &&& a1.categories@[ci2].auto is Some
                    &&& 1 <= p2 <= a1.categories@[ci2].paths@.len()
                };
            assert(ci2 != n) by {
                if ci2 == n {
                    assert(a1.categories@[ci2] == a1.categories@.last());
                    assert(false);
                }
            }
            assert(a1.categories@[ci2] == a0.categories@[ci2]);
            assert(auto_live(a0, cat2, p2));
        }
    }
    assert forall|cj: int, q: int|
        0 <= cj < a1.categories@.len() && 0 <= q < a1.categories@[cj].paths@.len() implies d.contains_key(
        Key::Source(#[trigger] a1.categories@[cj].paths@[q]@),
    ) by {
        if cj < n {
            assert(a1.categories@[cj] == a0.categories@[cj]);
            assert(d.contains_key(Key::Source(a0.categories@[cj].paths@[q]@)));
        } else {
            assert(a1.categories@[cj] == a1.categories@.last());
        }
    }
}

/// A fresh save's real index is strictly above every index already in
/// its category, and the allocation counter grows past it: real indices
/// are strictly increasing in creation order and never reused, even
/// after a removal, since `remove` keeps the counter and the surviving
/// indices untouched.
pub proof fn theorem_fresh_index(
    a0: App,
    a1: App,
    name: Option<String>,
    stamp: Seq<char>,
    ops: Seq<DiskOp>,
)
    requires
        app_wf(a0),
        save_ok(a0, a1, name, stamp, ops),
    ensures
        forall|ci: int|
            active_at(a0, ci) ==> {
                let fresh = a1.categories@[ci].saves@.last();
                &&& fresh.real_index == (#[trigger] a0.categories@[ci]).max
                &&& a1.categories@[ci].max > a0.categories@[ci].max
                &&& forall|k: int|
                    0 <= k < a0.categories@[ci].saves@.len()
                        ==> (#[trigger] a0.categories@[ci].saves@[k]).real_index
                        < fresh.real_index
            },
{
    let cw = choose|cw: int|
        #![trigger a0.categories@[cw]]
        {
            &&& active_at(a0, cw)
            &&& app_same_but(a0, a1, cw)
            &&& cat_after_save(a0.categories@[cw], a1.categories@[cw], name, stamp)
            &&& kops_of(ops) == save_kops(
                a0.categories@[cw].name@,
                str_views(a0.categories@[cw].paths@),
                a0.categories@[cw].max as int,
                a0.categories@[cw].paths@.len() as int,
            )
        };
    assert forall|ci: int| active_at(a0, ci) implies ci == cw by {
        assert(a0.categories@[ci].name@ == a0.categories@[cw].name@);
    }
    assert(cat_wf(a0.categories@[cw]));
}

/// The ledger/disk invariant is preserved by `load` of a resolved save,
/// whenever the active category's tracked paths are distinct.
pub proof fn theorem_load_named_disk<T>(
    a0: App,
    a1: App,
    token: Seq<char>,
    stamp: Seq<char>,
    ops: Seq<DiskOp>,
    d: Map<Key, T>,
)
    requires
        app_wf(a0),
        load_named_ok(a0, a1, token, stamp, ops),
        forall|ci: int| active_at(a0, ci) ==> distinct_paths(#[trigger] a0.categories@[ci]),
        disk_ok(a0, d),
    ensures
        ops_valid(d, kops_of(ops)),
        disk_ok(a1, apply_ops(d, kops_of(ops))),
{
    let (ci, i) = choose|ci: int, i: int|
        #![trigger a0.categories@[ci].saves@[i]]
        {
            &&& active_at(a0, ci)
            &&& app_same_but(a0, a1, ci)
            &&& resolves_to(a0.categories@[ci], token, i)
            &&& cat_marked(a0.categories@[ci], a1.categories@[ci], stamp)
            &&& kops_of(ops) == load_kops(
                a0.categories@[ci].name@,
                str_views(a0.categories@[ci].paths@),
                a0.categories@[ci].saves@[i].real_index as int,
                a0.categories@[ci].auto is Some,
            )
        };
    theorem_load_disk(a0, a1, ci, i, stamp, ops, d);
}

/// The ledger/disk invariant is preserved by `load` of the latest save,
/// whenever the active category's tracked paths are distinct.
pub proof fn theorem_load_latest_disk<T>(
    a0: App,
    a1: App,
    stamp: Seq<char>,
    ops: Seq<DiskOp>,
    d: Map<Key, T>,
)
    requires
        app_wf(a0),
        load_default_ok(a0, a1, stamp, ops),
        forall|ci: int| active_at(a0, ci) ==> distinct_paths(#[trigger] a0.categories@[ci]),
        disk_ok(a0, d),
    ensures
        ops_valid(d, kops_of(ops)),
        disk_ok(a1, apply_ops(d, kops_of(ops))),
{
    let ci = choose|ci: int|
        #![trigger a0.categories@[ci]]
        {
            &&& active_at(a0, ci)
            &&& app_same_but(a0, a1, ci)
            &&& a0.categories@[ci].saves@.len() > 0
            &&& cat_marked(a0.categories@[ci], a1.categories@[ci], stamp)
            &&& kops_of(ops) == load_kops(
                a0.categories@[ci].name@,
                str_views(a0.categories@[ci].paths@),
                a0.categories@[ci].saves@.last().real_index as int,
                a0.categories@[ci].auto is Some,
            )
        };
    let last = a0.categories@[ci].saves@.len() - 1;
    assert(a0.categories@[ci].saves@.last() == a0.categories@[ci].saves@[last]);
    theorem_load_disk(a0, a1, ci, last, stamp, ops, d);
}

/// The ledger/disk invariant is preserved by `load auto`, whenever the
/// active category's tracked paths are distinct.
pub proof fn theorem_load_auto_disk<T>(
    a0: App,
    a1: App,
    stamp: Seq<char>,
    ops: Seq<DiskOp>,
    d: Map<Key, T>,
)
    requires
        app_wf(a0),
        rotate_ok(a0, a1, stamp, ops),
        forall|ci: int| active_at(a0, ci) ==> distinct_paths(#[trigger] a0.categories@[ci]),
        disk_ok(a0, d),
    ensures
        ops_valid(d, kops_of(ops)),
        disk_ok(a1, apply_ops(d, kops_of(ops))),
{
    let ci = choose|ci: int|
        #![trigger a0.categories@[ci]]
        {
            &&& active_at(a0, ci)
            &&& app_same_but(a0, a1, ci)
            &&& a0.categories@[ci].auto is Some
            &&& cat_marked(a0.categories@[ci], a1.categories@[ci], stamp)
            &&& kops_of(ops) == rotate_kops(
                a0.categories@[ci].name@,
                str_views(a0.categories@[ci].paths@),
                a0.categories@[ci].paths@.len() as int,
            )
        };
    theorem_rotate_disk(a0, a1, ci, stamp, ops, d);
}

/// The headline count: on a consistent filesystem, for every category
/// and every tracked ordinal, the number of numbered slots on disk is
/// exactly the number of saves in the ledger.
pub proof fn theorem_slot_count<T>(a: App, d: Map<Key, T>, ci: int, p: int)
    requires
        app_wf(a),
        disk_ok(a, d),
        0 <= ci < a.categories@.len(),
        1 <= p <= a.categories@[ci].paths@.len(),
    ensures
        (Set::new(
            |r: int| d.contains_key(Key::Slot(a.categories@[ci].name@, p, r)),
        )).finite(),
        (Set::new(|r: int| d.contains_key(Key::Slot(a.categories@[ci].name@, p, r)))).len()
            == a.categories@[ci].saves@.len(),
{
    let c = a.categories@[ci];
    let cat = c.name@;
    let idxs = idxs_of(c.saves@);
    let scount = c.saves@.len() as int;
    let present = Set::new(|r: int| d.contains_key(Key::Slot(cat, p, r)));
    assert(cat_wf(c));
    assert(idxs.len() == scount);
    assert forall|j: int| 0 <= j < scount implies #[trigger] idxs[j] == c.saves@[j].real_index by {}
    assert(present =~= idxs.to_set()) by {
        assert forall|r: int| #[trigger] present.contains(r) implies idxs.to_set().contains(r) by {
            assert(d.contains_key(Key::Slot(cat, p, r)));
            assert(slot_live(a, cat, p, r));
            let (ci2, k) = choose|ci2: int, k: int|
                #![trigger a.categories@[ci2].saves@[k]]
                {
                    &&& 0 <= ci2 < a.categories@.len()
                    &&& a.categories@[ci2].name@ == cat
                    &&& 1 <= p <= a.categories@[ci2].paths@.len()
                    &&& 0 <= k < a.categories@[ci2].saves@.len()
                    &&& a.categories@[ci2].saves@[k].real_index == r
                };
            assert(a.categories@[ci2].name@ == a.categories@[ci].name@);
            assert(ci2 == ci);
            assert(idxs[k] == r);
            assert(idxs.contains(r));
        }
        assert forall|r: int| idxs.to_set().contains(r) implies #[trigger] present.contains(r) by {
            assert(idxs.contains(r));
            let j = choose|j: int| 0 <= j < idxs.len() && #[trigger] idxs[j] == r;
            assert(a.categories@[ci].saves@[j].real_index == r);
            assert(slot_live(a, cat, p, r));
            assert(d.contains_key(Key::Slot(cat, p, r)));
        }
    }
    assert(idxs.no_duplicates()) by {
        assert forall|j1: int, j2: int|
            0 <= j1 < idxs.len() && 0 <= j2 < idxs.len() && j1 != j2 implies #[trigger] idxs[j1]
            != #[trigger] idxs[j2] by {
            if j1 < j2 {
                assert(c.saves@[j1].real_index < c.saves@[j2].real_index);
            } else {
                assert(c.saves@[j2].real_index < c.saves@[j1].real_index);
            }
        }
    }
    idxs.unique_seq_to_set();
}
} // verus!
