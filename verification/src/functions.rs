//! The command handlers: each validates its inputs against the ledger,
//! mutates the in-memory state, and returns the plan of disk operations
//! that realizes the change.  Nothing here touches the filesystem; the
//! caller executes the plan and persists the ledger afterwards.

use vstd::prelude::*;

use crate::Error;
use crate::types::{App, Category, Save, app_wf, cat_wf, valid_save_name};
use crate::nums::dec_digits;
use crate::disk::{DiskOp, Loc, kops_of, kop_of, KOp, Key, save_kops, remove_kops, overwrite_kops,
    load_kops, load_main_kops, evict_kops, rotate_kops, delete_kops, delete_saves_kops,
    rename_kops, rename_saves_kops, rename_slots_kops, rename_autos_kops};
use crate::resolve::{resolve_position, resolves_to, token_is_auto};

verus! {

/// The views of a sequence of strings.
pub open spec fn str_views(v: Seq<String>) -> Seq<Seq<char>> {
    v.map_values(|s: String| s@)
}

/// The view of an optional string.
pub open spec fn opt_str_view(o: Option<String>) -> Option<Seq<char>> {
    match o {
        Some(s) => Some(s@),
        None => None,
    }
}

/// The real indices of a save sequence, in order.
pub open spec fn idxs_of(saves: Seq<Save>) -> Seq<int> {
    saves.map_values(|s: Save| s.real_index as int)
}

/// Does some save in `saves` carry the display name `n`?
pub open spec fn name_in_use(saves: Seq<Save>, n: Seq<char>) -> bool {
    exists|i: int| 0 <= i < saves.len() && ((#[trigger] saves[i]).name matches Some(m) && m@ == n)
}

/// Is there a category named `n` in `a`?
pub open spec fn has_category(a: App, n: Seq<char>) -> bool {
    exists|i: int| 0 <= i < a.categories@.len() && #[trigger] a.categories@[i].name@ == n
}

/// `ci` is the position of the active category of `a`.
pub open spec fn active_at(a: App, ci: int) -> bool {
    &&& a.current matches Some(cur) && a.categories@[ci].name@ == cur@
    &&& 0 <= ci < a.categories@.len()
}

/// `a1` is `a0` with only the category at position `ci` changed.
pub open spec fn app_same_but(a0: App, a1: App, ci: int) -> bool {
    &&& a1.current == a0.current
    &&& a1.categories@.len() == a0.categories@.len()
    &&& forall|j: int|
        0 <= j < a0.categories@.len() && j != ci ==> a1.categories@[j] == a0.categories@[j]
}

/// `a1` holds the same ledger content as `a0`: same active pointer, same
/// categories in the same order.
pub open spec fn app_unchanged(a0: App, a1: App) -> bool {
    a1.current == a0.current && a1.categories@ == a0.categories@
}

/// Every allocation counter has room left; `save` needs this to allocate.
pub open spec fn counter_headroom(a: App) -> bool {
    forall|i: int|
        0 <= i < a.categories@.len() ==> (#[trigger] a.categories@[i]).max < usize::MAX
}

/// Relies on chrono's `Utc::now`, rendered through chrono's `format` as a
/// short month/day hour:minute stamp.  The result depends on the clock, so
/// nothing is promised of it.
#[verifier::external_body]
fn now_stamp() -> String {
    format!("{}", chrono::Utc::now().format("%m/%d %H:%M"))
}

/// `c1` is `c0` with one fresh save appended: the new save takes the old
/// allocation counter as its permanent real index, and the counter grows.
pub open spec fn cat_after_save(
    c0: Category,
    c1: Category,
    name: Option<String>,
    stamp: Seq<char>,
) -> bool {
    &&& c1.name == c0.name
    &&& c1.paths == c0.paths
    &&& c1.auto == c0.auto
    &&& c1.max == c0.max + 1
    &&& c1.saves@.len() == c0.saves@.len() + 1
    &&& forall|k: int| 0 <= k < c0.saves@.len() ==> c1.saves@[k] == c0.saves@[k]
    &&& opt_str_view(c1.saves@.last().name) == opt_str_view(name)
    &&& c1.saves@.last().real_index == c0.max
    &&& c1.saves@.last().date@ == stamp
}

/// The successful outcome of `save`: the active category gained one save,
/// everything else is untouched, and the plan copies every tracked tree
/// into the fresh numbered slots.
pub open spec fn save_ok(
    a0: App,
    a1: App,
    name: Option<String>,
    stamp: Seq<char>,
    ops: Seq<DiskOp>,
) -> bool {
    exists|ci: int|
        #![trigger a0.categories@[ci]]
        {
            &&& active_at(a0, ci)
            &&& app_same_but(a0, a1, ci)
            &&& cat_after_save(a0.categories@[ci], a1.categories@[ci], name, stamp)
            &&& kops_of(ops) == save_kops(
                a0.categories@[ci].name@,
                str_views(a0.categories@[ci].paths@),
                a0.categories@[ci].max as int,
                a0.categories@[ci].paths@.len() as int,
            )
        }
}

/// Creates a new category tracking `paths`.
///
/// The caller canonicalizes the paths to absolute form and checks that
/// each exists before calling; the ledger rules live here.  The new
/// category starts with no saves, no autosave, and a zeroed counter.
pub fn create(app: &mut App, name: &String, paths: Vec<String>) -> (r: Result<(), Error>)
    requires
        app_wf(*old(app)),
    ensures
        app_wf(*final(app)),
        paths@.len() == 0 ==> r == Err::<(), Error>(Error::SourcePathMissing) && *final(app)
            == *old(app),
        paths@.len() > 0 && has_category(*old(app), name@) ==> r == Err::<(), Error>(
            Error::CategoryAlreadyExists,
        ) && *final(app) == *old(app),
        paths@.len() > 0 && !has_category(*old(app), name@) ==> r == Ok::<(), Error>(()) && {
            &&& final(app).current == old(app).current
            &&& final(app).categories@.len() == old(app).categories@.len() + 1
            &&& forall|j: int|
                0 <= j < old(app).categories@.len() ==> final(app).categories@[j] == old(
                    app,
                ).categories@[j]
            &&& final(app).categories@.last().name@ == name@
            &&& final(app).categories@.last().paths == paths
            &&& final(app).categories@.last().saves@.len() == 0
            &&& final(app).categories@.last().auto is None
            &&& final(app).categories@.last().max == 0
        },
{
    if paths.len() == 0 {
        return Err(Error::SourcePathMissing);
    }
    match app.get_category_index(name.as_str()) {
        Ok(_) => Err(Error::CategoryAlreadyExists),
        Err(_) => {
            let cat = Category {
                name: name.clone(),
                paths,
                saves: Vec::new(),
                auto: None,
                max: 0,
            };
            let ghost gcat = cat;
            app.categories.push(cat);
            proof {
                let a0 = *old(app);
                let a1 = *app;
                let n = a0.categories@.len() as int;
                assert(a1.categories@ =~= a0.categories@.push(gcat));
                assert(cat_wf(gcat));
                assert forall|i: int| 0 <= i < a1.categories@.len() implies cat_wf(
                    #[trigger] a1.categories@[i],
                ) by {
                    if i < n {
                        assert(a1.categories@[i] == a0.categories@[i]);
                    }
                }
                assert forall|i: int, j: int|
                    0 <= i < j < a1.categories@.len() implies #[trigger] a1.categories@[i].name@
                    != #[trigger] a1.categories@[j].name@ by {
                    if j < n {
                        assert(a1.categories@[i] == a0.categories@[i]);
                        assert(a1.categories@[j] == a0.categories@[j]);
                    } else {
                        assert(a1.categories@[i] == a0.categories@[i]);
                        assert(a1.categories@[j].name@ == name@);
                    }
                }
                match a1.current {
                    Some(cur) => {
                        let wi = choose|i: int|
                            0 <= i < a0.categories@.len() && #[trigger] a0.categories@[i].name@
                                == cur@;
                        assert(a1.categories@[wi].name@ == cur@);
                    },
                    None => {},
                }
            }
            Ok(())
        },
    }
}

/// Makes the category named `name` the active one.
pub fn switch(app: &mut App, name: &String) -> (r: Result<(), Error>)
    requires
        app_wf(*old(app)),
    ensures
        app_wf(*final(app)),
        !has_category(*old(app), name@) ==> r == Err::<(), Error>(Error::CategoryNotFound)
            && *final(app) == *old(app),
        has_category(*old(app), name@) ==> r == Ok::<(), Error>(()) && final(app).categories
            == old(app).categories && (final(app).current matches Some(cur) && cur@ == name@),
{
    match app.get_category_index(name.as_str()) {
        Err(e) => Err(e),
        Ok(_) => {
            app.current = Some(name.clone());
            Ok(())
        },
    }
}

/// Records a new save of the active category, stamped `stamp`.
///
/// A display name must be neither a digit string nor `"auto"` — else the
/// resolver could never reach it — and must be unused in the category.
pub fn save_stamped(app: &mut App, name: &Option<String>, stamp: &String) -> (r: Result<
    Vec<DiskOp>,
    Error,
>)
    requires
        app_wf(*old(app)),
        counter_headroom(*old(app)),
    ensures
        app_wf(*final(app)),
        r is Err ==> *final(app) == *old(app),
        old(app).current is None <==> r == Err::<Vec<DiskOp>, Error>(Error::NoActiveCategory),
        old(app).current is Some ==> ((name matches Some(n) && !valid_save_name(n@)) <==> r
            == Err::<Vec<DiskOp>, Error>(Error::InvalidSaveName)),
        forall|ci: int|
            active_at(*old(app), ci) ==> ((name matches Some(n) && valid_save_name(n@)
                && name_in_use(#[trigger] old(app).categories@[ci].saves@, n@)) <==> r == Err::<
                Vec<DiskOp>,
                Error,
            >(Error::SaveAlreadyExists)),
        r matches Err(e) ==> (e == Error::NoActiveCategory || e == Error::InvalidSaveName || e
            == Error::SaveAlreadyExists),
        r matches Ok(ops) ==> save_ok(*old(app), *final(app), *name, stamp@, ops@),
{
    let cur = match &app.current {
        None => { return Err(Error::NoActiveCategory); },
        Some(cur) => cur.clone(),
    };
    let ci = match app.get_category_index(cur.as_str()) {
        Err(_) => { return Err(Error::NoActiveCategory); },
        Ok(ci) => ci,
    };
    if let Some(n) = name {
        let parsed = crate::nums::parse_dec(n.as_str());
        let numeric = !matches!(parsed, crate::nums::Parsed::NotNumeric);
        if numeric || crate::resolve::token_is_auto(n.as_str()) {
            return Err(Error::InvalidSaveName);
        }
        match app.categories[ci].get_save_index(n.as_str()) {
            Ok(_) => { return Err(Error::SaveAlreadyExists); },
            Err(_) => {},
        }
    }
    proof {
        assert(name matches Some(n) ==> (valid_save_name(n@) && !name_in_use(
            app.categories@[ci as int].saves@,
            n@,
        )));
    }
    let mut c = app.categories.remove(ci);
    let ghost c0 = c;
    let new_save = Save {
        name: match name {
            Some(n) => Some(n.clone()),
            None => None,
        },
        real_index: c.max,
        date: stamp.clone(),
    };
    let idx = c.max;
    c.max = c.max + 1;
    let ghost ns = new_save;
    c.saves.push(new_save);
    proof {
        assert(c.saves@ =~= c0.saves@.push(ns));
    }

    let pcount = c.paths.len();
    let mut ops: Vec<DiskOp> = Vec::new();
    let mut p: usize = 0;
    while p < pcount
        invariant
            0 <= p <= pcount,
            pcount == c.paths@.len(),
            c.paths == c0.paths,
            c.name == c0.name,
            c.auto == c0.auto,
            c.saves@ == c0.saves@.push(ns),
            c.max == c0.max + 1,
            idx == c0.max,
            (ns.name matches Some(m) ==> (name matches Some(n) && m@ == n@ && valid_save_name(m@)
                && !name_in_use(c0.saves@, m@))),
            (name matches Some(n) ==> (ns.name matches Some(m) && m@ == n@)),
            name is None ==> ns.name is None,
            ns.real_index == c0.max,
            ns.date@ == stamp@,
            kops_of(ops@) == save_kops(c0.name@, str_views(c0.paths@), idx as int, p as int),
        decreases pcount - p,
    {
        let op = DiskOp::CopyTree {
            from: Loc::Source { path: c.paths[p].clone() },
            to: Loc::Slot { category: c.name.clone(), ordinal: p + 1, index: idx },
        };
        proof {
            assert(kops_of(ops@.push(op)) =~= kops_of(ops@).push(kop_of(op)));
            assert(kop_of(op) == KOp::Copy(
                Key::Source(str_views(c0.paths@)[p as int]),
                Key::Slot(c0.name@, p + 1, idx as int),
            ));
            assert(save_kops(c0.name@, str_views(c0.paths@), idx as int, p + 1)
                =~= save_kops(c0.name@, str_views(c0.paths@), idx as int, p as int).push(
                KOp::Copy(
                    Key::Source(str_views(c0.paths@)[p as int]),
                    Key::Slot(c0.name@, p + 1, idx as int),
                ),
            ));
        }
        ops.push(op);
        p = p + 1;
    }
    let ghost c1 = c;
    app.categories.insert(ci, c);
    proof {
        let a0 = *old(app);
        let a1 = *app;
        assert(a1.categories@ =~= a0.categories@.update(ci as int, c1));
        assert(cat_wf(c0));
        assert(cat_wf(c1)) by {
            assert(forall|k: int| 0 <= k < c0.saves@.len() ==> c1.saves@[k] == c0.saves@[k]);
            assert(c1.saves@.last() == ns);
            assert forall|i: int, j: int|
                0 <= i < j < c1.saves@.len() implies #[trigger] c1.saves@[i].real_index
                < #[trigger] c1.saves@[j].real_index by {
                if j == c0.saves@.len() {
                    assert(c1.saves@[i] == c0.saves@[i]);
                    assert(c0.saves@[i].real_index < c0.max);
                }
            }
            assert forall|i: int, j: int|
                0 <= i < j < c1.saves@.len() implies ((#[trigger] c1.saves@[i]).name matches Some(
                n,
            ) ==> ((#[trigger] c1.saves@[j]).name matches Some(m) ==> n@ != m@)) by {
                if j == c0.saves@.len() {
                    assert(c1.saves@[i] == c0.saves@[i]);
                    assert(c1.saves@[j] == ns);
                    match ns.name {
                        Some(m) => {
                            assert(!name_in_use(c0.saves@, m@));
                            assert(!((#[trigger] c0.saves@[i]).name matches Some(x) && x@
                                == m@));
                        },
                        None => {},
                    }
                } else {
                    assert(c1.saves@[i] == c0.saves@[i]);
                    assert(c1.saves@[j] == c0.saves@[j]);
                }
            }
        }
        assert forall|i: int| 0 <= i < a1.categories@.len() implies cat_wf(
            #[trigger] a1.categories@[i],
        ) by {
            if i != ci {
                assert(a1.categories@[i] == a0.categories@[i]);
            }
        }
        assert forall|i: int, j: int|
            0 <= i < j < a1.categories@.len() implies #[trigger] a1.categories@[i].name@
            != #[trigger] a1.categories@[j].name@ by {
            assert(a1.categories@[i].name@ == a0.categories@[i].name@);
            assert(a1.categories@[j].name@ == a0.categories@[j].name@);
        }
        assert(active_at(a0, ci as int));
        assert(a1.categories@[ci as int].name@ == c0.name@);
        assert(app_wf(a1));
        assert(save_ok(a0, a1, *name, stamp@, ops@));
    }
    Ok(ops)
}

/// `c1` is `c0` with the save at position `i` dropped; later saves shift
/// down one position, their real indices untouched.
pub open spec fn cat_after_remove(c0: Category, c1: Category, i: int) -> bool {
    &&& c1.name == c0.name
    &&& c1.paths == c0.paths
    &&& c1.auto == c0.auto
    &&& c1.max == c0.max
    &&& c1.saves@ == c0.saves@.remove(i)
}

/// The successful outcome of `remove` with active category at `ci` and
/// the token resolved to position `i`: the ledger entry is dropped and
/// the plan deletes that save's numbered slots.
pub open spec fn remove_ok_at(
    a0: App,
    a1: App,
    token: Seq<char>,
    ops: Seq<DiskOp>,
    ci: int,
    i: int,
) -> bool {
    &&& active_at(a0, ci)
    &&& app_same_but(a0, a1, ci)
    &&& resolves_to(a0.categories@[ci], token, i)
    &&& cat_after_remove(a0.categories@[ci], a1.categories@[ci], i)
    &&& kops_of(ops) == remove_kops(
        a0.categories@[ci].name@,
        a0.categories@[ci].saves@[i].real_index as int,
        a0.categories@[ci].paths@.len() as int,
    )
}

/// The successful outcome of `remove`, for some active category and
/// resolved position.
pub open spec fn remove_ok(a0: App, a1: App, token: Seq<char>, ops: Seq<DiskOp>) -> bool {
    exists|ci: int, i: int| #[trigger] remove_ok_at(a0, a1, token, ops, ci, i)
}

/// Drops the save that `name` resolves to from the active category.
///
/// The positions of later saves shift down, so a caller holding several
/// references must resolve each anew after every removal.
pub fn remove(app: &mut App, name: &String) -> (r: Result<Vec<DiskOp>, Error>)
    requires
        app_wf(*old(app)),
    ensures
        app_wf(*final(app)),
        r is Err ==> *final(app) == *old(app),
        old(app).current is None <==> r == Err::<Vec<DiskOp>, Error>(Error::NoActiveCategory),
        forall|ci: int|
            active_at(*old(app), ci) ==> ((exists|i: int|
                resolves_to(#[trigger] old(app).categories@[ci], name@, i)) <==> r is Ok),
        r matches Err(e) ==> (e == Error::NoActiveCategory || e == Error::SaveNotFound),
        r matches Ok(ops) ==> remove_ok(*old(app), *final(app), name@, ops@),
{
    let cur = match &app.current {
        None => { return Err(Error::NoActiveCategory); },
        Some(cur) => cur.clone(),
    };
    let ci = match app.get_category_index(cur.as_str()) {
        Err(_) => { return Err(Error::NoActiveCategory); },
        Ok(ci) => ci,
    };
    proof {
        assert forall|x: int| active_at(*old(app), x) implies x == ci as int by {
            assert(old(app).categories@[x].name@ == old(app).categories@[ci as int].name@);
        }
    }
    let i = match resolve_position(&app.categories[ci], name.as_str()) {
        Err(e) => { return Err(e); },
        Ok(i) => i,
    };
    let mut c = app.categories.remove(ci);
    let ghost c0 = c;
    let dropped = c.saves.remove(i);
    let idx = dropped.real_index;
    let pcount = c.paths.len();
    let mut ops: Vec<DiskOp> = Vec::new();
    let mut p: usize = 0;
    while p < pcount
        invariant
            0 <= p <= pcount,
            pcount == c.paths@.len(),
            c.paths == c0.paths,
            c.name == c0.name,
            c.auto == c0.auto,
            c.max == c0.max,
            c.saves@ == c0.saves@.remove(i as int),
            0 <= i < c0.saves@.len(),
            idx == c0.saves@[i as int].real_index,
            kops_of(ops@) == remove_kops(c0.name@, idx as int, p as int),
        decreases pcount - p,
    {
        let op = DiskOp::RemoveTree {
            at: Loc::Slot { category: c.name.clone(), ordinal: p + 1, index: idx },
        };
        proof {
            assert(kops_of(ops@.push(op)) =~= kops_of(ops@).push(kop_of(op)));
            assert(remove_kops(c0.name@, idx as int, p + 1) =~= remove_kops(
                c0.name@,
                idx as int,
                p as int,
            ).push(KOp::Rem(Key::Slot(c0.name@, p + 1, idx as int))));
        }
        ops.push(op);
        p = p + 1;
    }
    let ghost c1 = c;
    app.categories.insert(ci, c);
    proof {
        let a0 = *old(app);
        let a1 = *app;
        assert(a1.categories@ =~= a0.categories@.update(ci as int, c1));
        assert(cat_wf(c0));
        let s0 = c0.saves@;
        let s1 = c1.saves@;
        assert(s1 =~= s0.remove(i as int));
        assert forall|k: int| 0 <= k < s1.len() implies #[trigger] s1[k] == (if k < i as int {
            s0[k]
        } else {
            s0[k + 1]
        }) by {}
        assert(cat_wf(c1)) by {
            assert forall|x: int, y: int|
                0 <= x < y < s1.len() implies #[trigger] s1[x].real_index
                < #[trigger] s1[y].real_index by {
                let x0: int = if x < i as int { x } else { x + 1 };
                let y0: int = if y < i as int { y } else { y + 1 };
                assert(s1[x] == s0[x0]);
                assert(s1[y] == s0[y0]);
            }
            assert forall|x: int, y: int|
                0 <= x < y < s1.len() implies ((#[trigger] s1[x]).name matches Some(n) ==> ((
                #[trigger] s1[y]).name matches Some(m) ==> n@ != m@)) by {
                let x0: int = if x < i as int { x } else { x + 1 };
                let y0: int = if y < i as int { y } else { y + 1 };
                assert(s1[x] == s0[x0]);
                assert(s1[y] == s0[y0]);
            }
        }
        assert forall|x: int| 0 <= x < a1.categories@.len() implies cat_wf(
            #[trigger] a1.categories@[x],
        ) by {
            if x != ci as int {
                assert(a1.categories@[x] == a0.categories@[x]);
            }
        }
        assert forall|x: int, y: int|
            0 <= x < y < a1.categories@.len() implies #[trigger] a1.categories@[x].name@
            != #[trigger] a1.categories@[y].name@ by {
            assert(a1.categories@[x].name@ == a0.categories@[x].name@);
            assert(a1.categories@[y].name@ == a0.categories@[y].name@);
        }
        assert(active_at(a0, ci as int));
        assert(a1.current == a0.current);
        assert(a1.categories@[ci as int].name@ == c0.name@);
        assert(app_wf(a1));
        assert(remove_ok_at(a0, a1, name@, ops@, ci as int, i as int));
        assert(remove_ok(a0, a1, name@, ops@));
    }
    Ok(ops)
}

/// `c1` is `c0` with the save at position `i` refreshed: its timestamp is
/// now `stamp`, its display name and real index are untouched, and the
/// autosave timestamp is refreshed too.
pub open spec fn cat_after_overwrite(
    c0: Category,
    c1: Category,
    i: int,
    stamp: Seq<char>,
) -> bool {
    &&& c1.name == c0.name
    &&& c1.paths == c0.paths
    &&& c1.max == c0.max
    &&& (c1.auto matches Some(d) && d@ == stamp)
    &&& c1.saves@.len() == c0.saves@.len()
    &&& forall|k: int| 0 <= k < c0.saves@.len() && k != i ==> c1.saves@[k] == c0.saves@[k]
    &&& c1.saves@[i].name == c0.saves@[i].name
    &&& c1.saves@[i].real_index == c0.saves@[i].real_index
    &&& c1.saves@[i].date@ == stamp
}

/// The successful outcome of `overwrite` with active category at `ci` and
/// the token resolved to position `i`: slot content is recaptured from
/// the live trees, the old slot content becomes the autosave.
pub open spec fn overwrite_ok_at(
    a0: App,
    a1: App,
    token: Seq<char>,
    stamp: Seq<char>,
    ops: Seq<DiskOp>,
    ci: int,
    i: int,
) -> bool {
    &&& active_at(a0, ci)
    &&& app_same_but(a0, a1, ci)
    &&& resolves_to(a0.categories@[ci], token, i)
    &&& cat_after_overwrite(a0.categories@[ci], a1.categories@[ci], i, stamp)
    &&& kops_of(ops) == overwrite_kops(
        a0.categories@[ci].name@,
        str_views(a0.categories@[ci].paths@),
        a0.categories@[ci].saves@[i].real_index as int,
        a0.categories@[ci].auto is Some,
        a0.categories@[ci].paths@.len() as int,
    )
}

/// The successful outcome of `overwrite`, for some active category and
/// resolved position.
pub open spec fn overwrite_ok(a0: App, a1: App, token: Seq<char>, stamp: Seq<char>, ops: Seq<DiskOp>) -> bool {
    exists|ci: int, i: int| #[trigger] overwrite_ok_at(a0, a1, token, stamp, ops, ci, i)
}

/// Refreshes the save that `name` resolves to from the current live
/// trees, stamped `stamp`.
///
/// Per ordinal the plan evicts any previous autosave slot, parks the
/// slot's old content there, and copies the live tree into the slot.  The
/// autosave marker is set, keeping the slot/marker correspondence.
pub fn overwrite_stamped(app: &mut App, name: &String, stamp: &String) -> (r: Result<
    Vec<DiskOp>,
    Error,
>)
    requires
        app_wf(*old(app)),
    ensures
        app_wf(*final(app)),
        r is Err ==> *final(app) == *old(app),
        old(app).current is None <==> r == Err::<Vec<DiskOp>, Error>(Error::NoActiveCategory),
        forall|ci: int|
            active_at(*old(app), ci) ==> ((exists|i: int|
                resolves_to(#[trigger] old(app).categories@[ci], name@, i)) <==> r is Ok),
        r matches Err(e) ==> (e == Error::NoActiveCategory || e == Error::SaveNotFound),
        r matches Ok(ops) ==> overwrite_ok(*old(app), *final(app), name@, stamp@, ops@),
{
    let cur = match &app.current {
        None => { return Err(Error::NoActiveCategory); },
        Some(cur) => cur.clone(),
    };
    let ci = match app.get_category_index(cur.as_str()) {
        Err(_) => { return Err(Error::NoActiveCategory); },
        Ok(ci) => ci,
    };
    proof {
        assert forall|x: int| active_at(*old(app), x) implies x == ci as int by {
            assert(old(app).categories@[x].name@ == old(app).categories@[ci as int].name@);
        }
    }
    let i = match resolve_position(&app.categories[ci], name.as_str()) {
        Err(e) => { return Err(e); },
        Ok(i) => i,
    };
    let mut c = app.categories.remove(ci);
    let ghost c0 = c;
    let marker = c.auto.is_some();
    let refreshed = c.saves.remove(i);
    let idx = refreshed.real_index;
    let new_save = Save { name: refreshed.name, real_index: refreshed.real_index, date: stamp.clone() };
    let ghost ns = new_save;
    c.saves.insert(i, new_save);
    c.auto = Some(stamp.clone());
    proof {
        assert(c.saves@ =~= c0.saves@.update(i as int, ns));
    }
    let pcount = c.paths.len();
    let mut ops: Vec<DiskOp> = Vec::new();
    let mut p: usize = 0;
    while p < pcount
        invariant
            0 <= p <= pcount,
            pcount == c.paths@.len(),
            c.paths == c0.paths,
            c.name == c0.name,
            c.max == c0.max,
            (c.auto matches Some(d) && d@ == stamp@),
            c.saves@ == c0.saves@.update(i as int, ns),
            0 <= i < c0.saves@.len(),
            idx == c0.saves@[i as int].real_index,
            ns.name == c0.saves@[i as int].name,
            ns.real_index == c0.saves@[i as int].real_index,
            ns.date@ == stamp@,
            marker == (c0.auto is Some),
            kops_of(ops@) == overwrite_kops(
                c0.name@,
                str_views(c0.paths@),
                idx as int,
                marker,
                p as int,
            ),
        decreases pcount - p,
    {
        if marker {
            let evict = DiskOp::RemoveTree {
                at: Loc::Auto { category: c.name.clone(), ordinal: p + 1 },
            };
            proof {
                assert(kops_of(ops@.push(evict)) =~= kops_of(ops@).push(kop_of(evict)));
            }
            ops.push(evict);
        }
        let park = DiskOp::Rename {
            from: Loc::Slot { category: c.name.clone(), ordinal: p + 1, index: idx },
            to: Loc::Auto { category: c.name.clone(), ordinal: p + 1 },
        };
        proof {
            assert(kops_of(ops@.push(park)) =~= kops_of(ops@).push(kop_of(park)));
        }
        ops.push(park);
        let capture = DiskOp::CopyTree {
            from: Loc::Source { path: c.paths[p].clone() },
            to: Loc::Slot { category: c.name.clone(), ordinal: p + 1, index: idx },
        };
        proof {
            assert(kops_of(ops@.push(capture)) =~= kops_of(ops@).push(kop_of(capture)));
            let base = overwrite_kops(c0.name@, str_views(c0.paths@), idx as int, marker, p as int);
            let block: Seq<KOp> = (if marker {
                seq![KOp::Rem(Key::Auto(c0.name@, p + 1))]
            } else {
                Seq::empty()
            }) + seq![
                KOp::Ren(Key::Slot(c0.name@, p + 1, idx as int), Key::Auto(c0.name@, p + 1)),
                KOp::Copy(
                    Key::Source(str_views(c0.paths@)[p as int]),
                    Key::Slot(c0.name@, p + 1, idx as int),
                ),
            ];
            assert(overwrite_kops(c0.name@, str_views(c0.paths@), idx as int, marker, p + 1)
                =~= base + block);
            if marker {
                assert(base + block =~= base.push(KOp::Rem(Key::Auto(c0.name@, p + 1))).push(
                    KOp::Ren(Key::Slot(c0.name@, p + 1, idx as int), Key::Auto(c0.name@, p + 1)),
                ).push(
                    KOp::Copy(
                        Key::Source(str_views(c0.paths@)[p as int]),
                        Key::Slot(c0.name@, p + 1, idx as int),
                    ),
                ));
            } else {
                assert(base + block =~= base.push(
                    KOp::Ren(Key::Slot(c0.name@, p + 1, idx as int), Key::Auto(c0.name@, p + 1)),
                ).push(
                    KOp::Copy(
                        Key::Source(str_views(c0.paths@)[p as int]),
                        Key::Slot(c0.name@, p + 1, idx as int),
                    ),
                ));
            }
        }
        ops.push(capture);
        p = p + 1;
    }
    let ghost c1 = c;
    app.categories.insert(ci, c);
    proof {
        let a0 = *old(app);
        let a1 = *app;
        assert(a1.categories@ =~= a0.categories@.update(ci as int, c1));
        assert(cat_wf(c0));
        let s0 = c0.saves@;
        let s1 = c1.saves@;
        assert(cat_wf(c1)) by {
            assert forall|x: int, y: int|
                0 <= x < y < s1.len() implies #[trigger] s1[x].real_index
                < #[trigger] s1[y].real_index by {
                assert(s1[x].real_index == s0[x].real_index);
                assert(s1[y].real_index == s0[y].real_index);
            }
            assert forall|x: int|
                0 <= x < s1.len() implies ((#[trigger] s1[x]).name matches Some(n)
                ==> valid_save_name(n@)) by {
                assert(s1[x].name == s0[x].name);
            }
            assert forall|x: int, y: int|
                0 <= x < y < s1.len() implies ((#[trigger] s1[x]).name matches Some(n) ==> ((
                #[trigger] s1[y]).name matches Some(m) ==> n@ != m@)) by {
                assert(s1[x].name == s0[x].name);
                assert(s1[y].name == s0[y].name);
            }
        }
        assert forall|x: int| 0 <= x < a1.categories@.len() implies cat_wf(
            #[trigger] a1.categories@[x],
        ) by {
            if x != ci as int {
                assert(a1.categories@[x] == a0.categories@[x]);
            }
        }
        assert forall|x: int, y: int|
            0 <= x < y < a1.categories@.len() implies #[trigger] a1.categories@[x].name@
            != #[trigger] a1.categories@[y].name@ by {
            assert(a1.categories@[x].name@ == a0.categories@[x].name@);
            assert(a1.categories@[y].name@ == a0.categories@[y].name@);
        }
        assert(active_at(a0, ci as int));
        assert(a1.current == a0.current);
        assert(a1.categories@[ci as int].name@ == c0.name@);
        assert(app_wf(a1));
        assert(overwrite_ok_at(a0, a1, name@, stamp@, ops@, ci as int, i as int));
        assert(overwrite_ok(a0, a1, name@, stamp@, ops@));
    }
    Ok(ops)
}

/// Refreshes the save that `name` resolves to, stamped with the current
/// time.
pub fn overwrite(app: &mut App, name: &String) -> (r: Result<Vec<DiskOp>, Error>)
    requires
        app_wf(*old(app)),
    ensures
        app_wf(*final(app)),
        r is Err ==> *final(app) == *old(app),
        old(app).current is None <==> r == Err::<Vec<DiskOp>, Error>(Error::NoActiveCategory),
        forall|ci: int|
            active_at(*old(app), ci) ==> ((exists|i: int|
                resolves_to(#[trigger] old(app).categories@[ci], name@, i)) <==> r is Ok),
        r matches Err(e) ==> (e == Error::NoActiveCategory || e == Error::SaveNotFound),
        r matches Ok(ops) ==> (exists|stamp: Seq<char>|
            overwrite_ok(*old(app), *final(app), name@, stamp, ops@)),
{
    let stamp = now_stamp();
    overwrite_stamped(app, name, &stamp)
}

/// Records a new save of the active category, stamped with the current
/// time.
pub fn save(app: &mut App, name: &Option<String>) -> (r: Result<Vec<DiskOp>, Error>)
    requires
        app_wf(*old(app)),
        counter_headroom(*old(app)),
    ensures
        app_wf(*final(app)),
        r is Err ==> *final(app) == *old(app),
        old(app).current is None <==> r == Err::<Vec<DiskOp>, Error>(Error::NoActiveCategory),
        old(app).current is Some ==> ((name matches Some(n) && !valid_save_name(n@)) <==> r
            == Err::<Vec<DiskOp>, Error>(Error::InvalidSaveName)),
        forall|ci: int|
            active_at(*old(app), ci) ==> ((name matches Some(n) && valid_save_name(n@)
                && name_in_use(#[trigger] old(app).categories@[ci].saves@, n@)) <==> r == Err::<
                Vec<DiskOp>,
                Error,
            >(Error::SaveAlreadyExists)),
        r matches Err(e) ==> (e == Error::NoActiveCategory || e == Error::InvalidSaveName || e
            == Error::SaveAlreadyExists),
        r matches Ok(ops) ==> (exists|stamp: Seq<char>|
            save_ok(*old(app), *final(app), *name, stamp, ops@)),
{
    let stamp = now_stamp();
    save_stamped(app, name, &stamp)
}

/// `c1` is `c0` with only the autosave marker refreshed to `stamp`.
pub open spec fn cat_marked(c0: Category, c1: Category, stamp: Seq<char>) -> bool {
    &&& c1.name == c0.name
    &&& c1.paths == c0.paths
    &&& c1.saves == c0.saves
    &&& c1.max == c0.max
    &&& (c1.auto matches Some(d) && d@ == stamp)
}

/// Restores the save that `name` resolves to in `c`.
///
/// The plan evicts a previous autosave if one exists, parks each live
/// tree in the autosave slot, and copies the chosen version into the
/// now-empty source location; the version's slot stays intact.
pub fn load_name(c: &mut Category, name: &str, stamp: &String) -> (r: Result<Vec<DiskOp>, Error>)
    requires
        cat_wf(*old(c)),
    ensures
        cat_wf(*final(c)),
        r is Err ==> (*final(c) == *old(c) && r == Err::<Vec<DiskOp>, Error>(Error::SaveNotFound)),
        (exists|i: int| resolves_to(*old(c), name@, i)) <==> r is Ok,
        r matches Ok(ops) ==> (exists|i: int|
            #![trigger old(c).saves@[i]]
            {
                &&& resolves_to(*old(c), name@, i)
                &&& cat_marked(*old(c), *final(c), stamp@)
                &&& kops_of(ops@) == load_kops(
                    old(c).name@,
                    str_views(old(c).paths@),
                    old(c).saves@[i].real_index as int,
                    old(c).auto is Some,
                )
            }),
{
    let ghost c0 = *c;
    let i = match resolve_position(c, name) {
        Err(e) => { return Err(e); },
        Ok(i) => i,
    };
    let idx = c.saves[i].real_index;
    let marker = c.auto.is_some();
    let pcount = c.paths.len();
    let mut ops: Vec<DiskOp> = Vec::new();
    if marker {
        let mut p: usize = 0;
        while p < pcount
            invariant
                0 <= p <= pcount,
                *c == c0,
                pcount == c0.paths@.len(),
                kops_of(ops@) == evict_kops(c0.name@, p as int),
            decreases pcount - p,
        {
            let evict = DiskOp::RemoveTree {
                at: Loc::Auto { category: c.name.clone(), ordinal: p + 1 },
            };
            proof {
                assert(kops_of(ops@.push(evict)) =~= kops_of(ops@).push(kop_of(evict)));
                assert(evict_kops(c0.name@, p + 1) =~= evict_kops(c0.name@, p as int).push(
                    KOp::Rem(Key::Auto(c0.name@, p + 1)),
                ));
            }
            ops.push(evict);
            p = p + 1;
        }
    }
    let ghost evict_part: Seq<KOp> = if marker {
        evict_kops(c0.name@, pcount as int)
    } else {
        Seq::empty()
    };
    proof {
        assert(kops_of(ops@) =~= evict_part);
    }
    let mut p: usize = 0;
    while p < pcount
        invariant
            0 <= p <= pcount,
            *c == c0,
            pcount == c0.paths@.len(),
            idx == c0.saves@[i as int].real_index,
            0 <= i < c0.saves@.len(),
            marker == (c0.auto is Some),
            evict_part == (if marker {
                evict_kops(c0.name@, pcount as int)
            } else {
                Seq::<KOp>::empty()
            }),
            kops_of(ops@) == evict_part + load_main_kops(
                c0.name@,
                str_views(c0.paths@),
                idx as int,
                p as int,
            ),
        decreases pcount - p,
    {
        let park = DiskOp::Rename {
            from: Loc::Source { path: c.paths[p].clone() },
            to: Loc::Auto { category: c.name.clone(), ordinal: p + 1 },
        };
        proof {
            assert(kops_of(ops@.push(park)) =~= kops_of(ops@).push(kop_of(park)));
        }
        ops.push(park);
        let restore = DiskOp::CopyTree {
            from: Loc::Slot { category: c.name.clone(), ordinal: p + 1, index: idx },
            to: Loc::Source { path: c.paths[p].clone() },
        };
        proof {
            assert(kops_of(ops@.push(restore)) =~= kops_of(ops@).push(kop_of(restore)));
            let views = str_views(c0.paths@);
            assert(load_main_kops(c0.name@, views, idx as int, p + 1) =~= load_main_kops(
                c0.name@,
                views,
                idx as int,
                p as int,
            ).push(KOp::Ren(Key::Source(views[p as int]), Key::Auto(c0.name@, p + 1))).push(
                KOp::Copy(Key::Slot(c0.name@, p + 1, idx as int), Key::Source(views[p as int])),
            ));
            assert(evict_part + load_main_kops(c0.name@, views, idx as int, p + 1) =~= (evict_part
                + load_main_kops(c0.name@, views, idx as int, p as int)).push(
                KOp::Ren(Key::Source(views[p as int]), Key::Auto(c0.name@, p + 1)),
            ).push(
                KOp::Copy(Key::Slot(c0.name@, p + 1, idx as int), Key::Source(views[p as int])),
            ));
        }
        ops.push(restore);
        p = p + 1;
    }
    c.auto = Some(stamp.clone());
    proof {
        assert(kops_of(ops@) == load_kops(
            c0.name@,
            str_views(c0.paths@),
            idx as int,
            c0.auto is Some,
        ));
    }
    Ok(ops)
}

/// Rotates the autosave back into place in `c`.
///
/// A pure rename-only three-way rotation through the holding spot: the
/// autosave becomes the live tree and the live tree becomes the autosave.
/// Loading the autosave twice in a row therefore swaps back and forth
/// between the two most recent states: a one-level undo and redo.
pub fn load_auto(c: &mut Category, stamp: &String) -> (r: Result<Vec<DiskOp>, Error>)
    requires
        cat_wf(*old(c)),
    ensures
        cat_wf(*final(c)),
        r is Err ==> (*final(c) == *old(c) && r == Err::<Vec<DiskOp>, Error>(
            Error::NoAutosaveAvailable,
        )),
        (old(c).auto is Some) <==> r is Ok,
        r matches Ok(ops) ==> (cat_marked(*old(c), *final(c), stamp@) && kops_of(ops@)
            == rotate_kops(old(c).name@, str_views(old(c).paths@), old(c).paths@.len() as int)),
{
    let ghost c0 = *c;
    if c.auto.is_none() {
        return Err(Error::NoAutosaveAvailable);
    }
    let pcount = c.paths.len();
    let mut ops: Vec<DiskOp> = Vec::new();
    let mut p: usize = 0;
    while p < pcount
        invariant
            0 <= p <= pcount,
            *c == c0,
            pcount == c0.paths@.len(),
            kops_of(ops@) == rotate_kops(c0.name@, str_views(c0.paths@), p as int),
        decreases pcount - p,
    {
        let park = DiskOp::Rename {
            from: Loc::Auto { category: c.name.clone(), ordinal: p + 1 },
            to: Loc::Holding { category: c.name.clone(), ordinal: p + 1 },
        };
        proof {
            assert(kops_of(ops@.push(park)) =~= kops_of(ops@).push(kop_of(park)));
        }
        ops.push(park);
        let swap_in = DiskOp::Rename {
            from: Loc::Source { path: c.paths[p].clone() },
            to: Loc::Auto { category: c.name.clone(), ordinal: p + 1 },
        };
        proof {
            assert(kops_of(ops@.push(swap_in)) =~= kops_of(ops@).push(kop_of(swap_in)));
        }
        ops.push(swap_in);
        let swap_out = DiskOp::Rename {
            from: Loc::Holding { category: c.name.clone(), ordinal: p + 1 },
            to: Loc::Source { path: c.paths[p].clone() },
        };
        proof {
            assert(kops_of(ops@.push(swap_out)) =~= kops_of(ops@).push(kop_of(swap_out)));
            let views = str_views(c0.paths@);
            assert(rotate_kops(c0.name@, views, p + 1) =~= rotate_kops(
                c0.name@,
                views,
                p as int,
            ).push(KOp::Ren(Key::Auto(c0.name@, p + 1), Key::Holding(c0.name@, p + 1))).push(
                KOp::Ren(Key::Source(views[p as int]), Key::Auto(c0.name@, p + 1)),
            ).push(KOp::Ren(Key::Holding(c0.name@, p + 1), Key::Source(views[p as int]))));
        }
        ops.push(swap_out);
        p = p + 1;
    }
    c.auto = Some(stamp.clone());
    Ok(ops)
}

/// The successful outcome of `load` of the latest save: for some active
/// category, its last save was restored and its autosave marker set.
pub open spec fn load_default_ok(a0: App, a1: App, stamp: Seq<char>, ops: Seq<DiskOp>) -> bool {
    exists|ci: int|
        #![trigger a0.categories@[ci]]
        {
            &&& active_at(a0, ci)
            &&& app_same_but(a0, a1, ci)
            &&& a0.categories@[ci].saves@.len() > 0
            &&& cat_marked(a0.categories@[ci], a1.categories@[ci], stamp)
            &&& kops_of(ops) == load_kops(
                a0.categories@[ci].name@,
                str_views(a0.categories@[ci].paths@),
                a0.categories@[ci].saves@.last().real_index as int,
                a0.categories@[ci].auto is Some,
            )
        }
}

/// The successful outcome of `load` of a resolved save.
pub open spec fn load_named_ok(
    a0: App,
    a1: App,
    token: Seq<char>,
    stamp: Seq<char>,
    ops: Seq<DiskOp>,
) -> bool {
    exists|ci: int, i: int|
        #![trigger a0.categories@[ci].saves@[i]]
        {
            &&& active_at(a0, ci)
            &&& app_same_but(a0, a1, ci)
            &&& resolves_to(a0.categories@[ci], token, i)
            &&& cat_marked(a0.categories@[ci], a1.categories@[ci], stamp)
            &&& kops_of(ops) == load_kops(
                a0.categories@[ci].name@,
                str_views(a0.categories@[ci].paths@),
                a0.categories@[ci].saves@[i].real_index as int,
                a0.categories@[ci].auto is Some,
            )
        }
}

/// The successful outcome of `load auto`: the rotation ran and the marker
/// was refreshed.
pub open spec fn rotate_ok(a0: App, a1: App, stamp: Seq<char>, ops: Seq<DiskOp>) -> bool {
    exists|ci: int|
        #![trigger a0.categories@[ci]]
        {
            &&& active_at(a0, ci)
            &&& app_same_but(a0, a1, ci)
            &&& a0.categories@[ci].auto is Some
            &&& cat_marked(a0.categories@[ci], a1.categories@[ci], stamp)
            &&& kops_of(ops) == rotate_kops(
                a0.categories@[ci].name@,
                str_views(a0.categories@[ci].paths@),
                a0.categories@[ci].paths@.len() as int,
            )
        }
}

/// Restores a version in the active category, stamped `stamp`: the
/// resolved save for a token, the autosave for `"auto"`, the latest save
/// when no token is given.
pub fn load_stamped(app: &mut App, name: &Option<String>, stamp: &String) -> (r: Result<
    Vec<DiskOp>,
    Error,
>)
    requires
        app_wf(*old(app)),
    ensures
        app_wf(*final(app)),
        r is Err ==> app_unchanged(*old(app), *final(app)),
        old(app).current is None <==> r == Err::<Vec<DiskOp>, Error>(Error::NoActiveCategory),
        forall|ci: int|
            active_at(*old(app), ci) ==> ((#[trigger] old(app).categories@[ci]).saves@.len() == 0
                <==> r == Err::<Vec<DiskOp>, Error>(Error::NoSavesInCategory)),
        forall|ci: int|
            active_at(*old(app), ci) && (#[trigger] old(app).categories@[ci]).saves@.len() > 0
                ==> (name is None ==> (r matches Ok(ops) && load_default_ok(
                *old(app),
                *final(app),
                stamp@,
                ops@,
            ))),
        forall|ci: int|
            active_at(*old(app), ci) && (#[trigger] old(app).categories@[ci]).saves@.len() > 0
                ==> (name matches Some(tok) ==> (tok@ == "auto"@ ==> ((old(
                app,
            ).categories@[ci].auto is None <==> r == Err::<Vec<DiskOp>, Error>(
                Error::NoAutosaveAvailable,
            )) && (old(app).categories@[ci].auto is Some ==> (r matches Ok(ops) && rotate_ok(
                *old(app),
                *final(app),
                stamp@,
                ops@,
            )))))),
        forall|ci: int|
            active_at(*old(app), ci) && (#[trigger] old(app).categories@[ci]).saves@.len() > 0
                ==> (name matches Some(tok) ==> (tok@ != "auto"@ ==> (((exists|i: int|
                resolves_to(old(app).categories@[ci], tok@, i)) <==> r is Ok) && (r is Err ==> r
                == Err::<Vec<DiskOp>, Error>(Error::SaveNotFound)) && (r matches Ok(ops)
                ==> load_named_ok(*old(app), *final(app), tok@, stamp@, ops@))))),
{
    let cur = match &app.current {
        None => { return Err(Error::NoActiveCategory); },
        Some(cur) => cur.clone(),
    };
    let ci = match app.get_category_index(cur.as_str()) {
        Err(_) => { return Err(Error::NoActiveCategory); },
        Ok(ci) => ci,
    };
    proof {
        assert forall|x: int| active_at(*old(app), x) implies x == ci as int by {
            assert(old(app).categories@[x].name@ == old(app).categories@[ci as int].name@);
        }
        assert(active_at(*old(app), ci as int));
    }
    if app.categories[ci].saves.len() == 0 {
        return Err(Error::NoSavesInCategory);
    }
    let mut c = app.categories.remove(ci);
    let ghost c0 = c;
    let res: Result<Vec<DiskOp>, Error> = match name {
        Some(tok) => {
            if token_is_auto(tok.as_str()) {
                load_auto(&mut c, stamp)
            } else {
                load_name(&mut c, tok.as_str(), stamp)
            }
        },
        None => {
            let last = c.saves.len() - 1;
            let token = crate::nums::usize_to_string(last);
            proof {
                crate::nums::lemma_dec_digits_ok(last as nat);
            }
            load_name(&mut c, token.as_str(), stamp)
        },
    };
    let ghost c1 = c;
    app.categories.insert(ci, c);
    proof {
        let a0 = *old(app);
        let a1 = *app;
        assert(a1.categories@ =~= a0.categories@.update(ci as int, c1));
        assert(cat_wf(c1));
        assert forall|x: int| 0 <= x < a1.categories@.len() implies cat_wf(
            #[trigger] a1.categories@[x],
        ) by {
            if x != ci as int {
                assert(a1.categories@[x] == a0.categories@[x]);
            }
        }
        assert forall|x: int, y: int|
            0 <= x < y < a1.categories@.len() implies #[trigger] a1.categories@[x].name@
            != #[trigger] a1.categories@[y].name@ by {
            assert(a1.categories@[x].name@ == a0.categories@[x].name@);
            assert(a1.categories@[y].name@ == a0.categories@[y].name@);
        }
        assert(a1.categories@[ci as int].name@ == c0.name@);
        assert(app_wf(a1));
        if res is Err {
            assert(c1 == c0);
            assert(a1.categories@ =~= a0.categories@);
            assert(app_unchanged(a0, a1));
            if name is None {
                let last = c0.saves@.len() - 1;
                assert(resolves_to(c0, dec_digits(last as nat), last));
                assert(false);
            }
        }
    }
    match res {
        Err(e) => Err(e),
        Ok(ops) => {
            proof {
                let a0 = *old(app);
                let a1 = *app;
                match name {
                    Some(tok) => {
                        if tok@ == "auto"@ {
                            assert(rotate_ok(a0, a1, stamp@, ops@));
                        } else {
                            let wi = choose|i: int|
                                #![trigger c0.saves@[i]]
                                {
                                    &&& resolves_to(c0, tok@, i)
                                    &&& cat_marked(c0, c1, stamp@)
                                    &&& kops_of(ops@) == load_kops(
                                        c0.name@,
                                        str_views(c0.paths@),
                                        c0.saves@[i].real_index as int,
                                        c0.auto is Some,
                                    )
                                };
                            assert(load_named_ok(a0, a1, tok@, stamp@, ops@));
                        }
                    },
                    None => {
                        let last = c0.saves@.len() - 1;
                        let token = dec_digits(last as nat);
                        let wi = choose|i: int|
                            #![trigger c0.saves@[i]]
                            {
                                &&& resolves_to(c0, token, i)
                                &&& cat_marked(c0, c1, stamp@)
                                &&& kops_of(ops@) == load_kops(
                                    c0.name@,
                                    str_views(c0.paths@),
                                    c0.saves@[i].real_index as int,
                                    c0.auto is Some,
                                )
                            };
                        assert(wi == last);
                        assert(c0.saves@.last() == c0.saves@[last]);
                        assert(load_default_ok(a0, a1, stamp@, ops@));
                    },
                }
            }
            Ok(ops)
        },
    }
}

/// Restores a version in the active category, stamped with the current
/// time.
pub fn load(app: &mut App, name: &Option<String>) -> (r: Result<Vec<DiskOp>, Error>)
    requires
        app_wf(*old(app)),
    ensures
        app_wf(*final(app)),
        r is Err ==> app_unchanged(*old(app), *final(app)),
        old(app).current is None <==> r == Err::<Vec<DiskOp>, Error>(Error::NoActiveCategory),
        forall|ci: int|
            active_at(*old(app), ci) ==> ((#[trigger] old(app).categories@[ci]).saves@.len() == 0
                <==> r == Err::<Vec<DiskOp>, Error>(Error::NoSavesInCategory)),
        forall|ci: int|
            active_at(*old(app), ci) && (#[trigger] old(app).categories@[ci]).saves@.len() > 0
                ==> (name is None ==> (r matches Ok(ops) && (exists|stamp: Seq<char>|
                load_default_ok(*old(app), *final(app), stamp, ops@)))),
        forall|ci: int|
            active_at(*old(app), ci) && (#[trigger] old(app).categories@[ci]).saves@.len() > 0
                ==> (name matches Some(tok) ==> (tok@ == "auto"@ ==> ((old(
                app,
            ).categories@[ci].auto is None <==> r == Err::<Vec<DiskOp>, Error>(
                Error::NoAutosaveAvailable,
            )) && (old(app).categories@[ci].auto is Some ==> (r matches Ok(ops) && (exists|
                stamp: Seq<char>,
            |
                rotate_ok(*old(app), *final(app), stamp, ops@))))))),
        forall|ci: int|
            active_at(*old(app), ci) && (#[trigger] old(app).categories@[ci]).saves@.len() > 0
                ==> (name matches Some(tok) ==> (tok@ != "auto"@ ==> (((exists|i: int|
                resolves_to(old(app).categories@[ci], tok@, i)) <==> r is Ok) && (r is Err ==> r
                == Err::<Vec<DiskOp>, Error>(Error::SaveNotFound)) && (r matches Ok(ops) ==> (
            exists|stamp: Seq<char>|
                load_named_ok(*old(app), *final(app), tok@, stamp, ops@)))))),
{
    let stamp = now_stamp();
    load_stamped(app, name, &stamp)
}

/// The successful outcome of `delete`: the category at `ci` is gone from
/// the ledger, the active pointer is cleared if it pointed there, and the
/// plan deletes every numbered slot and the autosave slots if present.
pub open spec fn delete_ok(a0: App, a1: App, name: Seq<char>, ops: Seq<DiskOp>) -> bool {
    exists|ci: int|
        #![trigger a0.categories@[ci]]
        {
            &&& 0 <= ci < a0.categories@.len()
            &&& a0.categories@[ci].name@ == name
            &&& a1.categories@ == a0.categories@.remove(ci)
            &&& (if (a0.current matches Some(cur) && cur@ == name) {
                a1.current is None
            } else {
                a1.current == a0.current
            })
            &&& kops_of(ops) == delete_kops(
                name,
                idxs_of(a0.categories@[ci].saves@),
                a0.categories@[ci].paths@.len() as int,
                a0.categories@[ci].auto is Some,
            )
        }
}

/// Removes the category named `name` entirely: ledger entry, every
/// numbered slot, and the autosave slots if an autosave exists.
pub fn delete(app: &mut App, name: &String) -> (r: Result<Vec<DiskOp>, Error>)
    requires
        app_wf(*old(app)),
    ensures
        app_wf(*final(app)),
        r is Err ==> (*final(app) == *old(app) && r == Err::<Vec<DiskOp>, Error>(
            Error::CategoryNotFound,
        )),
        has_category(*old(app), name@) <==> r is Ok,
        r matches Ok(ops) ==> delete_ok(*old(app), *final(app), name@, ops@),
{
    let ci = match app.get_category_index(name.as_str()) {
        Err(e) => { return Err(e); },
        Ok(ci) => ci,
    };
    let c = app.categories.remove(ci);
    let ghost c0 = c;
    let scount = c.saves.len();
    let pcount = c.paths.len();
    let marker = c.auto.is_some();
    let mut ops: Vec<DiskOp> = Vec::new();
    let ghost idxs = idxs_of(c0.saves@);
    let mut k: usize = 0;
    while k < scount
        invariant
            0 <= k <= scount,
            scount == c0.saves@.len(),
            pcount == c0.paths@.len(),
            c == c0,
            idxs == idxs_of(c0.saves@),
            kops_of(ops@) == delete_saves_kops(c0.name@, idxs, pcount as int, k as int),
        decreases scount - k,
    {
        let idx = c.saves[k].real_index;
        proof {
            assert(idxs[k as int] == idx as int);
        }
        let mut p: usize = 0;
        while p < pcount
            invariant
                0 <= p <= pcount,
                0 <= k < scount,
                scount == c0.saves@.len(),
                pcount == c0.paths@.len(),
                c == c0,
                idxs == idxs_of(c0.saves@),
                idx as int == idxs[k as int],
                kops_of(ops@) == delete_saves_kops(c0.name@, idxs, pcount as int, k as int)
                    + remove_kops(c0.name@, idx as int, p as int),
            decreases pcount - p,
        {
            let op = DiskOp::RemoveTree {
                at: Loc::Slot { category: c.name.clone(), ordinal: p + 1, index: idx },
            };
            proof {
                assert(kops_of(ops@.push(op)) =~= kops_of(ops@).push(kop_of(op)));
                assert(remove_kops(c0.name@, idx as int, p + 1) =~= remove_kops(
                    c0.name@,
                    idx as int,
                    p as int,
                ).push(KOp::Rem(Key::Slot(c0.name@, p + 1, idx as int))));
                assert(delete_saves_kops(c0.name@, idxs, pcount as int, k as int) + remove_kops(
                    c0.name@,
                    idx as int,
                    p + 1,
                ) =~= (delete_saves_kops(c0.name@, idxs, pcount as int, k as int) + remove_kops(
                    c0.name@,
                    idx as int,
                    p as int,
                )).push(KOp::Rem(Key::Slot(c0.name@, p + 1, idx as int))));
            }
            ops.push(op);
            p = p + 1;
        }
        proof {
            assert(delete_saves_kops(c0.name@, idxs, pcount as int, k + 1)
                =~= delete_saves_kops(c0.name@, idxs, pcount as int, k as int) + remove_kops(
                c0.name@,
                idxs[k as int],
                pcount as int,
            ));
        }
        k = k + 1;
    }
    if marker {
        let mut p: usize = 0;
        proof {
            assert(kops_of(ops@) + evict_kops(c0.name@, 0) =~= kops_of(ops@));
        }
        let ghost slots_part = kops_of(ops@);
        while p < pcount
            invariant
                0 <= p <= pcount,
                pcount == c0.paths@.len(),
                c == c0,
                slots_part == delete_saves_kops(c0.name@, idxs, pcount as int, c0.saves@.len() as int),
                idxs == idxs_of(c0.saves@),
                kops_of(ops@) == slots_part + evict_kops(c0.name@, p as int),
            decreases pcount - p,
        {
            let op = DiskOp::RemoveTree {
                at: Loc::Auto { category: c.name.clone(), ordinal: p + 1 },
            };
            proof {
                assert(kops_of(ops@.push(op)) =~= kops_of(ops@).push(kop_of(op)));
                assert(evict_kops(c0.name@, p + 1) =~= evict_kops(c0.name@, p as int).push(
                    KOp::Rem(Key::Auto(c0.name@, p + 1)),
                ));
                assert(slots_part + evict_kops(c0.name@, p + 1) =~= (slots_part + evict_kops(
                    c0.name@,
                    p as int,
                )).push(KOp::Rem(Key::Auto(c0.name@, p + 1))));
            }
            ops.push(op);
            p = p + 1;
        }
    }
    proof {
        assert(kops_of(ops@) =~= delete_kops(c0.name@, idxs, pcount as int, marker));
    }
    let clear = match &app.current {
        Some(cur) => crate::types::str_eq_string(name.as_str(), cur),
        None => false,
    };
    if clear {
        app.current = None;
    }
    proof {
        let a0 = *old(app);
        let a1 = *app;
        assert(a1.categories@ =~= a0.categories@.remove(ci as int));
        assert forall|x: int| 0 <= x < a1.categories@.len() implies cat_wf(
            #[trigger] a1.categories@[x],
        ) by {
            let x0: int = if x < ci as int { x } else { x + 1 };
            assert(a1.categories@[x] == a0.categories@[x0]);
        }
        assert forall|x: int, y: int|
            0 <= x < y < a1.categories@.len() implies #[trigger] a1.categories@[x].name@
            != #[trigger] a1.categories@[y].name@ by {
            let x0: int = if x < ci as int { x } else { x + 1 };
            let y0: int = if y < ci as int { y } else { y + 1 };
            assert(a1.categories@[x] == a0.categories@[x0]);
            assert(a1.categories@[y] == a0.categories@[y0]);
        }
        match a1.current {
            Some(cur) => {
                assert(cur@ != name@);
                let wi = choose|i: int|
                    0 <= i < a0.categories@.len() && #[trigger] a0.categories@[i].name@ == cur@;
                assert(a0.categories@[ci as int].name@ == name@);
                assert(wi != ci as int);
                let wi1: int = if wi < ci as int { wi } else { wi - 1 };
                assert(a1.categories@[wi1].name@ == cur@);
            },
            None => {},
        }
        assert(app_wf(a1));
        assert(delete_ok(a0, a1, name@, ops@));
    }
    Ok(ops)
}

/// The successful outcome of `update name`: the active category carries
/// the new name, the active pointer follows, and the plan moves every
/// slot to its new name, numbered slots first, then the autosave slots if
/// an autosave exists.
pub open spec fn rename_ok(a0: App, a1: App, name: Seq<char>, ops: Seq<DiskOp>) -> bool {
    exists|ci: int|
        #![trigger a0.categories@[ci]]
        {
            &&& active_at(a0, ci)
            &&& a1.categories@.len() == a0.categories@.len()
            &&& forall|j: int|
                0 <= j < a0.categories@.len() && j != ci ==> a1.categories@[j]
                    == a0.categories@[j]
            &&& a1.categories@[ci].name@ == name
            &&& a1.categories@[ci].paths == a0.categories@[ci].paths
            &&& a1.categories@[ci].saves == a0.categories@[ci].saves
            &&& a1.categories@[ci].auto == a0.categories@[ci].auto
            &&& a1.categories@[ci].max == a0.categories@[ci].max
            &&& (a1.current matches Some(cur) && cur@ == name)
            &&& kops_of(ops) == rename_kops(
                a0.categories@[ci].name@,
                name,
                idxs_of(a0.categories@[ci].saves@),
                a0.categories@[ci].paths@.len() as int,
                a0.categories@[ci].auto is Some,
            )
        }
}

/// Renames the active category to `name`.
///
/// Slot names on disk embed the category name, so every numbered slot and
/// any autosave slot moves to its new name.
pub fn update_name(app: &mut App, name: &String) -> (r: Result<Vec<DiskOp>, Error>)
    requires
        app_wf(*old(app)),
    ensures
        app_wf(*final(app)),
        r is Err ==> *final(app) == *old(app),
        has_category(*old(app), name@) <==> r == Err::<Vec<DiskOp>, Error>(
            Error::CategoryAlreadyExists,
        ),
        !has_category(*old(app), name@) ==> (old(app).current is None <==> r == Err::<
            Vec<DiskOp>,
            Error,
        >(Error::NoActiveCategory)),
        !has_category(*old(app), name@) && old(app).current is Some ==> r is Ok,
        r matches Ok(ops) ==> rename_ok(*old(app), *final(app), name@, ops@),
{
    match app.get_category_index(name.as_str()) {
        Ok(_) => { return Err(Error::CategoryAlreadyExists); },
        Err(_) => {},
    }
    let cur = match &app.current {
        None => { return Err(Error::NoActiveCategory); },
        Some(cur) => cur.clone(),
    };
    let ci = match app.get_category_index(cur.as_str()) {
        Err(_) => { return Err(Error::NoActiveCategory); },
        Ok(ci) => ci,
    };
    proof {
        assert forall|x: int| active_at(*old(app), x) implies x == ci as int by {
            assert(old(app).categories@[x].name@ == old(app).categories@[ci as int].name@);
        }
        assert(active_at(*old(app), ci as int));
    }
    let mut c = app.categories.remove(ci);
    let ghost c0 = c;
    let scount = c.saves.len();
    let pcount = c.paths.len();
    let marker = c.auto.is_some();
    let mut ops: Vec<DiskOp> = Vec::new();
    let ghost idxs = idxs_of(c0.saves@);
    let mut k: usize = 0;
    while k < scount
        invariant
            0 <= k <= scount,
            scount == c0.saves@.len(),
            pcount == c0.paths@.len(),
            c == c0,
            idxs == idxs_of(c0.saves@),
            kops_of(ops@) == rename_saves_kops(c0.name@, name@, idxs, pcount as int, k as int),
        decreases scount - k,
    {
        let idx = c.saves[k].real_index;
        proof {
            assert(idxs[k as int] == idx as int);
        }
        let mut p: usize = 0;
        while p < pcount
            invariant
                0 <= p <= pcount,
                0 <= k < scount,
                scount == c0.saves@.len(),
                pcount == c0.paths@.len(),
                c == c0,
                idxs == idxs_of(c0.saves@),
                idx as int == idxs[k as int],
                kops_of(ops@) == rename_saves_kops(c0.name@, name@, idxs, pcount as int, k as int)
                    + rename_slots_kops(c0.name@, name@, idx as int, p as int),
            decreases pcount - p,
        {
            let op = DiskOp::Rename {
                from: Loc::Slot { category: c.name.clone(), ordinal: p + 1, index: idx },
                to: Loc::Slot { category: name.clone(), ordinal: p + 1, index: idx },
            };
            proof {
                assert(kops_of(ops@.push(op)) =~= kops_of(ops@).push(kop_of(op)));
                assert(rename_slots_kops(c0.name@, name@, idx as int, p + 1)
                    =~= rename_slots_kops(c0.name@, name@, idx as int, p as int).push(
                    KOp::Ren(
                        Key::Slot(c0.name@, p + 1, idx as int),
                        Key::Slot(name@, p + 1, idx as int),
                    ),
                ));
                assert(rename_saves_kops(c0.name@, name@, idxs, pcount as int, k as int)
                    + rename_slots_kops(c0.name@, name@, idx as int, p + 1) =~= (rename_saves_kops(
                    c0.name@,
                    name@,
                    idxs,
                    pcount as int,
                    k as int,
                ) + rename_slots_kops(c0.name@, name@, idx as int, p as int)).push(
                    KOp::Ren(
                        Key::Slot(c0.name@, p + 1, idx as int),
                        Key::Slot(name@, p + 1, idx as int),
                    ),
                ));
            }
            ops.push(op);
            p = p + 1;
        }
        proof {
            assert(rename_saves_kops(c0.name@, name@, idxs, pcount as int, k + 1)
                =~= rename_saves_kops(c0.name@, name@, idxs, pcount as int, k as int)
                + rename_slots_kops(c0.name@, name@, idxs[k as int], pcount as int));
        }
        k = k + 1;
    }
    if marker {
        let ghost slots_part = kops_of(ops@);
        let mut p: usize = 0;
        while p < pcount
            invariant
                0 <= p <= pcount,
                pcount == c0.paths@.len(),
                c == c0,
                idxs == idxs_of(c0.saves@),
                slots_part == rename_saves_kops(
                    c0.name@,
                    name@,
                    idxs,
                    pcount as int,
                    c0.saves@.len() as int,
                ),
                kops_of(ops@) == slots_part + rename_autos_kops(c0.name@, name@, p as int),
            decreases pcount - p,
        {
            let op = DiskOp::Rename {
                from: Loc::Auto { category: c.name.clone(), ordinal: p + 1 },
                to: Loc::Auto { category: name.clone(), ordinal: p + 1 },
            };
            proof {
                assert(kops_of(ops@.push(op)) =~= kops_of(ops@).push(kop_of(op)));
                assert(rename_autos_kops(c0.name@, name@, p + 1) =~= rename_autos_kops(
                    c0.name@,
                    name@,
                    p as int,
                ).push(KOp::Ren(Key::Auto(c0.name@, p + 1), Key::Auto(name@, p + 1))));
                assert(slots_part + rename_autos_kops(c0.name@, name@, p + 1) =~= (slots_part
                    + rename_autos_kops(c0.name@, name@, p as int)).push(
                    KOp::Ren(Key::Auto(c0.name@, p + 1), Key::Auto(name@, p + 1)),
                ));
            }
            ops.push(op);
            p = p + 1;
        }
    }
    proof {
        assert(kops_of(ops@) =~= rename_kops(c0.name@, name@, idxs, pcount as int, marker));
    }
    c.name = name.clone();
    let ghost c1 = c;
    app.categories.insert(ci, c);
    app.current = Some(name.clone());
    proof {
        let a0 = *old(app);
        let a1 = *app;
        assert(a1.categories@ =~= a0.categories@.update(ci as int, c1));
        assert(cat_wf(c1)) by {
            assert(c1.saves == c0.saves);
            assert(c1.paths == c0.paths);
            assert(cat_wf(c0));
        }
        assert forall|x: int| 0 <= x < a1.categories@.len() implies cat_wf(
            #[trigger] a1.categories@[x],
        ) by {
            if x != ci as int {
                assert(a1.categories@[x] == a0.categories@[x]);
            }
        }
        assert forall|x: int, y: int|
            0 <= x < y < a1.categories@.len() implies #[trigger] a1.categories@[x].name@
            != #[trigger] a1.categories@[y].name@ by {
            if x != ci as int && y != ci as int {
                assert(a1.categories@[x] == a0.categories@[x]);
                assert(a1.categories@[y] == a0.categories@[y]);
            } else if x == ci as int {
                assert(a1.categories@[x].name@ == name@);
                assert(a1.categories@[y] == a0.categories@[y]);
                assert(!has_category(a0, name@));
            } else {
                assert(a1.categories@[y].name@ == name@);
                assert(a1.categories@[x] == a0.categories@[x]);
                assert(!has_category(a0, name@));
            }
        }
        assert(a1.categories@[ci as int].name@ == name@);
        assert(app_wf(a1));
        assert(rename_ok(a0, a1, name@, ops@));
    }
    Ok(ops)
}

} // verus!
