//! The snapshot engine's operation language and its semantics.
//!
//! Commands do not touch the filesystem themselves: they return a plan, a
//! sequence of [`DiskOp`] values, which an unverified shell executes in
//! order.  Each operation addresses a [`Loc`], a structured identity for a
//! filesystem tree: a tracked source path, a numbered slot, an autosave
//! slot, or the temporary holding spot used while rotating the autosave.
//!
//! For reasoning, a filesystem is modelled as a map from [`Key`] (the ghost
//! identity of a location) to the tree stored there, opaque to everything
//! here.  Distinct keys are taken to denote distinct filesystem locations,
//! which holds as long as tracked paths lie outside the data directory and
//! category names make slot names unambiguous.

use vstd::prelude::*;

verus! {

/// The identity of one filesystem tree that the engine may touch.
#[derive(Debug)]
pub enum Loc {
    /// A live tracked tree, by its absolute path.
    Source { path: String },
    /// The numbered slot of ordinal `ordinal` for the save with real index
    /// `index`, in the category named `category`.
    Slot { category: String, ordinal: usize, index: usize },
    /// The autosave slot of ordinal `ordinal` in the category named
    /// `category`.
    Auto { category: String, ordinal: usize },
    /// The temporary holding spot for ordinal `ordinal` of the category
    /// named `category`, used only inside an autosave rotation.
    Holding { category: String, ordinal: usize },
}

/// One filesystem mutation of the engine.
#[derive(Debug)]
pub enum DiskOp {
    /// Recursively copy the tree at `from` into `to`; `from` stays intact
    /// and `to` must not exist beforehand.
    CopyTree { from: Loc, to: Loc },
    /// Move the tree at `from` to `to`; `to` must not exist beforehand.
    Rename { from: Loc, to: Loc },
    /// Delete the tree at `at`.
    RemoveTree { at: Loc },
}

/// The ghost identity of a [`Loc`].
pub enum Key {
    Source(Seq<char>),
    Slot(Seq<char>, int, int),
    Auto(Seq<char>, int),
    Holding(Seq<char>, int),
}

/// The ghost form of a [`DiskOp`].
pub enum KOp {
    Copy(Key, Key),
    Ren(Key, Key),
    Rem(Key),
}

/// The ghost identity of a location.
pub open spec fn loc_key(l: Loc) -> Key {
    match l {
        Loc::Source { path } => Key::Source(path@),
        Loc::Slot { category, ordinal, index } => Key::Slot(
            category@,
            ordinal as int,
            index as int,
        ),
        Loc::Auto { category, ordinal } => Key::Auto(category@, ordinal as int),
        Loc::Holding { category, ordinal } => Key::Holding(category@, ordinal as int),
    }
}

/// The ghost form of an operation.
pub open spec fn kop_of(op: DiskOp) -> KOp {
    match op {
        DiskOp::CopyTree { from, to } => KOp::Copy(loc_key(from), loc_key(to)),
        DiskOp::Rename { from, to } => KOp::Ren(loc_key(from), loc_key(to)),
        DiskOp::RemoveTree { at } => KOp::Rem(loc_key(at)),
    }
}

/// The ghost form of a plan.
pub open spec fn kops_of(ops: Seq<DiskOp>) -> Seq<KOp> {
    ops.map_values(|op: DiskOp| kop_of(op))
}

/// Whether `op` can run without failing on the filesystem `d`: what it
/// reads or deletes exists, and what it creates does not exist yet.
pub open spec fn op_enabled<T>(d: Map<Key, T>, op: KOp) -> bool {
    match op {
        KOp::Copy(from, to) => d.contains_key(from) && !d.contains_key(to),
        KOp::Ren(from, to) => d.contains_key(from) && !d.contains_key(to),
        KOp::Rem(at) => d.contains_key(at),
    }
}

/// The filesystem after `op`.
pub open spec fn apply_op<T>(d: Map<Key, T>, op: KOp) -> Map<Key, T> {
    match op {
        KOp::Copy(from, to) => d.insert(to, d[from]),
        KOp::Ren(from, to) => d.remove(from).insert(to, d[from]),
        KOp::Rem(at) => d.remove(at),
    }
}

/// The filesystem after the whole plan, applied in order.
pub open spec fn apply_ops<T>(d: Map<Key, T>, ops: Seq<KOp>) -> Map<Key, T>
    decreases ops.len(),
{
    if ops.len() == 0 {
        d
    } else {
        apply_ops(apply_op(d, ops[0]), ops.skip(1))
    }
}

/// Whether every step of the plan is enabled on the filesystem it runs on.
pub open spec fn ops_valid<T>(d: Map<Key, T>, ops: Seq<KOp>) -> bool
    decreases ops.len(),
{
    if ops.len() == 0 {
        true
    } else {
        op_enabled(d, ops[0]) && ops_valid(apply_op(d, ops[0]), ops.skip(1))
    }
}

/// Running a concatenated plan is running the parts in turn.
pub proof fn lemma_apply_concat<T>(d: Map<Key, T>, a: Seq<KOp>, b: Seq<KOp>)
    ensures
        apply_ops(d, a + b) == apply_ops(apply_ops(d, a), b),
    decreases a.len(),
{
    if a.len() == 0 {
        assert(a + b =~= b);
    } else {
        assert((a + b)[0] == a[0]);
        assert((a + b).skip(1) =~= a.skip(1) + b);
        lemma_apply_concat(apply_op(d, a[0]), a.skip(1), b);
    }
}

/// A concatenated plan is valid exactly when the first part is valid and
/// the second part is valid on what the first part leaves behind.
pub proof fn lemma_valid_concat<T>(d: Map<Key, T>, a: Seq<KOp>, b: Seq<KOp>)
    ensures
        ops_valid(d, a + b) <==> (ops_valid(d, a) && ops_valid(apply_ops(d, a), b)),
    decreases a.len(),
{
    if a.len() == 0 {
        assert(a + b =~= b);
    } else {
        assert((a + b)[0] == a[0]);
        assert((a + b).skip(1) =~= a.skip(1) + b);
        lemma_valid_concat(apply_op(d, a[0]), a.skip(1), b);
    }
}

/// Running a one-operation plan is running that operation.
pub proof fn lemma_apply_one<T>(d: Map<Key, T>, op: KOp)
    ensures
        apply_ops(d, seq![op]) == apply_op(d, op),
        ops_valid(d, seq![op]) <==> op_enabled(d, op),
{
    let s = seq![op];
    assert(s.len() == 1);
    assert(s[0] == op);
    assert(s.skip(1) =~= Seq::<KOp>::empty());
    assert(apply_ops(apply_op(d, op), Seq::<KOp>::empty()) == apply_op(d, op));
    assert(ops_valid(apply_op(d, op), Seq::<KOp>::empty()));
    assert(apply_ops(d, s) == apply_ops(apply_op(d, s[0]), s.skip(1)));
    assert(ops_valid(d, s) <==> (op_enabled(d, s[0]) && ops_valid(apply_op(d, s[0]), s.skip(1))));
}

/// Running a two-operation plan is running both in order.
pub proof fn lemma_apply_two<T>(d: Map<Key, T>, a: KOp, b: KOp)
    ensures
        apply_ops(d, seq![a, b]) == apply_op(apply_op(d, a), b),
        ops_valid(d, seq![a, b]) <==> (op_enabled(d, a) && op_enabled(apply_op(d, a), b)),
{
    assert(seq![a, b].skip(1) =~= seq![b]);
    lemma_apply_one(apply_op(d, a), b);
}

/// Running a three-operation plan is running all three in order.
pub proof fn lemma_apply_three<T>(d: Map<Key, T>, a: KOp, b: KOp, c: KOp)
    ensures
        apply_ops(d, seq![a, b, c]) == apply_op(apply_op(apply_op(d, a), b), c),
        ops_valid(d, seq![a, b, c]) <==> (op_enabled(d, a) && op_enabled(apply_op(d, a), b)
            && op_enabled(apply_op(apply_op(d, a), b), c)),
{
    assert(seq![a, b, c].skip(1) =~= seq![b, c]);
    lemma_apply_two(apply_op(d, a), b, c);
}

/// The plan of `save` over the first `p` ordinals: copy each tracked tree
/// into the fresh numbered slot `idx`.
pub open spec fn save_kops(cat: Seq<char>, paths: Seq<Seq<char>>, idx: int, p: int) -> Seq<KOp>
    decreases p,
{
    if p <= 0 {
        Seq::empty()
    } else {
        save_kops(cat, paths, idx, p - 1) + seq![
            KOp::Copy(Key::Source(paths[p - 1]), Key::Slot(cat, p, idx)),
        ]
    }
}

/// Eviction of the autosave slots of the first `p` ordinals.
pub open spec fn evict_kops(cat: Seq<char>, p: int) -> Seq<KOp>
    decreases p,
{
    if p <= 0 {
        Seq::empty()
    } else {
        evict_kops(cat, p - 1) + seq![KOp::Rem(Key::Auto(cat, p))]
    }
}

/// The main part of loading the numbered slot `idx`, over the first `p`
/// ordinals: park each live tree in the autosave slot, then copy the
/// chosen version into the now-empty source location.
pub open spec fn load_main_kops(cat: Seq<char>, paths: Seq<Seq<char>>, idx: int, p: int) -> Seq<
    KOp,
>
    decreases p,
{
    if p <= 0 {
        Seq::empty()
    } else {
        load_main_kops(cat, paths, idx, p - 1) + seq![
            KOp::Ren(Key::Source(paths[p - 1]), Key::Auto(cat, p)),
            KOp::Copy(Key::Slot(cat, p, idx), Key::Source(paths[p - 1])),
        ]
    }
}

/// The whole plan of loading the numbered slot `idx`: evict a previous
/// autosave first, if one exists, so the parking renames cannot collide.
pub open spec fn load_kops(
    cat: Seq<char>,
    paths: Seq<Seq<char>>,
    idx: int,
    marker: bool,
) -> Seq<KOp> {
    (if marker {
        evict_kops(cat, paths.len() as int)
    } else {
        Seq::empty()
    }) + load_main_kops(cat, paths, idx, paths.len() as int)
}

/// The plan of `load auto` over the first `p` ordinals: a pure three-way
/// rotation through the holding spot, swapping each live tree with the
/// autosave slot.  No copy is performed.
pub open spec fn rotate_kops(cat: Seq<char>, paths: Seq<Seq<char>>, p: int) -> Seq<KOp>
    decreases p,
{
    if p <= 0 {
        Seq::empty()
    } else {
        rotate_kops(cat, paths, p - 1) + seq![
            KOp::Ren(Key::Auto(cat, p), Key::Holding(cat, p)),
            KOp::Ren(Key::Source(paths[p - 1]), Key::Auto(cat, p)),
            KOp::Ren(Key::Holding(cat, p), Key::Source(paths[p - 1])),
        ]
    }
}

/// The plan of `overwrite` of the numbered slot `idx` over the first `p`
/// ordinals: per ordinal, evict the autosave slot if one exists, park the
/// slot's old content there, then copy the live tree into the slot.
pub open spec fn overwrite_kops(
    cat: Seq<char>,
    paths: Seq<Seq<char>>,
    idx: int,
    marker: bool,
    p: int,
) -> Seq<KOp>
    decreases p,
{
    if p <= 0 {
        Seq::empty()
    } else {
        overwrite_kops(cat, paths, idx, marker, p - 1) + (if marker {
            seq![KOp::Rem(Key::Auto(cat, p))]
        } else {
            Seq::empty()
        }) + seq![
            KOp::Ren(Key::Slot(cat, p, idx), Key::Auto(cat, p)),
            KOp::Copy(Key::Source(paths[p - 1]), Key::Slot(cat, p, idx)),
        ]
    }
}

/// The plan of `remove` of the numbered slot `idx` over the first `p`
/// ordinals: delete each slot.
pub open spec fn remove_kops(cat: Seq<char>, idx: int, p: int) -> Seq<KOp>
    decreases p,
{
    if p <= 0 {
        Seq::empty()
    } else {
        remove_kops(cat, idx, p - 1) + seq![KOp::Rem(Key::Slot(cat, p, idx))]
    }
}

/// Deletion of the numbered slots of the first `k` saves, whose real
/// indices are `idxs`, each over all `pcount` ordinals.
pub open spec fn delete_saves_kops(cat: Seq<char>, idxs: Seq<int>, pcount: int, k: int) -> Seq<
    KOp,
>
    decreases k,
{
    if k <= 0 {
        Seq::empty()
    } else {
        delete_saves_kops(cat, idxs, pcount, k - 1) + remove_kops(cat, idxs[k - 1], pcount)
    }
}

/// The whole plan of `delete`: every numbered slot of every save, then the
/// autosave slots if an autosave exists.
pub open spec fn delete_kops(cat: Seq<char>, idxs: Seq<int>, pcount: int, marker: bool) -> Seq<
    KOp,
> {
    delete_saves_kops(cat, idxs, pcount, idxs.len() as int) + (if marker {
        evict_kops(cat, pcount)
    } else {
        Seq::empty()
    })
}

/// Renaming the numbered slots of the first `k` saves from category name
/// `old_cat` to `new_cat`, each over all `pcount` ordinals.
pub open spec fn rename_saves_kops(
    old_cat: Seq<char>,
    new_cat: Seq<char>,
    idxs: Seq<int>,
    pcount: int,
    k: int,
) -> Seq<KOp>
    decreases k, pcount,
{
    if k <= 0 {
        Seq::empty()
    } else {
        rename_saves_kops(old_cat, new_cat, idxs, pcount, k - 1) + rename_slots_kops(
            old_cat,
            new_cat,
            idxs[k - 1],
            pcount,
        )
    }
}

/// Renaming the numbered slots of one save, over the first `p` ordinals.
pub open spec fn rename_slots_kops(
    old_cat: Seq<char>,
    new_cat: Seq<char>,
    idx: int,
    p: int,
) -> Seq<KOp>
    decreases p,
{
    if p <= 0 {
        Seq::empty()
    } else {
        rename_slots_kops(old_cat, new_cat, idx, p - 1) + seq![
            KOp::Ren(Key::Slot(old_cat, p, idx), Key::Slot(new_cat, p, idx)),
        ]
    }
}

/// Renaming the autosave slots, over the first `p` ordinals.
pub open spec fn rename_autos_kops(old_cat: Seq<char>, new_cat: Seq<char>, p: int) -> Seq<KOp>
    decreases p,
{
    if p <= 0 {
        Seq::empty()
    } else {
        rename_autos_kops(old_cat, new_cat, p - 1) + seq![
            KOp::Ren(Key::Auto(old_cat, p), Key::Auto(new_cat, p)),
        ]
    }
}

/// The whole plan of `update name`: move every numbered slot of every
/// save, then the autosave slots if an autosave exists.
pub open spec fn rename_kops(
    old_cat: Seq<char>,
    new_cat: Seq<char>,
    idxs: Seq<int>,
    pcount: int,
    marker: bool,
) -> Seq<KOp> {
    rename_saves_kops(old_cat, new_cat, idxs, pcount, idxs.len() as int) + (if marker {
        rename_autos_kops(old_cat, new_cat, pcount)
    } else {
        Seq::empty()
    })
}

} // verus!
