//! The ledger: categories of saves, the active-category pointer, and the
//! naming of on-disk snapshot slots.
//!
//! A `Save` is one numbered snapshot of every tracked path of its category.
//! Its `real_index` is allocated from the category's `max` counter and never
//! reused, even after the save is removed; the position of a save in
//! `Category::saves` is what users address, and it shifts on removal.

use vstd::prelude::*;

use crate::Error;
use crate::nums::{is_dec_seq, dec_digits, usize_to_string};

verus! {

/// One numbered snapshot of every tracked path of its category.
#[verifier::ext_equal]
#[derive(Debug)]
pub struct Save {
    /// Optional display name; never a digit string and never `"auto"`.
    pub name: Option<String>,
    /// The slot number on disk, allocated once and never reused.
    pub real_index: usize,
    /// Timestamp of creation or of the latest refresh.
    pub date: String,
}

/// A named group of tracked paths and their saves.
#[verifier::ext_equal]
#[derive(Debug)]
pub struct Category {
    /// Unique name; slot names on disk are derived from it.
    pub name: String,
    /// Absolute paths of the tracked trees, addressed by 1-based ordinal.
    pub paths: Vec<String>,
    /// The saves, in creation order.
    pub saves: Vec<Save>,
    /// Timestamp of the autosave; the autosave slots exist iff this is set.
    pub auto: Option<String>,
    /// The next `real_index` to allocate; grows monotonically.
    pub max: usize,
}

/// The whole persisted state: all categories and the active one.
#[verifier::ext_equal]
#[derive(Debug)]
pub struct App {
    /// Name of the active category, if any.
    pub current: Option<String>,
    /// All categories, in creation order.
    pub categories: Vec<Category>,
}

/// A display name is valid when the reference resolver can never mistake it
/// for a position or for the autosave selector.
pub open spec fn valid_save_name(s: Seq<char>) -> bool {
    !is_dec_seq(s) && s != "auto"@
}

/// Well-formedness of a category: at least one tracked path, every
/// `real_index` below the allocation counter and strictly increasing in
/// creation order, and display names valid and unique.
pub open spec fn cat_wf(c: Category) -> bool {
    &&& c.paths@.len() >= 1
    &&& forall|i: int| 0 <= i < c.saves@.len() ==> (#[trigger] c.saves@[i]).real_index < c.max
    &&& forall|i: int, j: int|
        0 <= i < j < c.saves@.len() ==> #[trigger] c.saves@[i].real_index < #[trigger] c.saves@[j].real_index
    &&& forall|i: int|
        0 <= i < c.saves@.len() ==> ((#[trigger] c.saves@[i]).name matches Some(n) ==> valid_save_name(n@))
    &&& forall|i: int, j: int|
        0 <= i < j < c.saves@.len() ==> ((#[trigger] c.saves@[i]).name matches Some(n)
            ==> ((#[trigger] c.saves@[j]).name matches Some(m) ==> n@ != m@))
}

/// Well-formedness of the whole state: category names unique, the active
/// pointer dangling-free, and every category well-formed.
pub open spec fn app_wf(a: App) -> bool {
    &&& forall|i: int, j: int|
        0 <= i < j < a.categories@.len()
            ==> #[trigger] a.categories@[i].name@ != #[trigger] a.categories@[j].name@
    &&& (a.current matches Some(cur) ==> exists|i: int|
        0 <= i < a.categories@.len() && #[trigger] a.categories@[i].name@ == cur@)
    &&& forall|i: int| 0 <= i < a.categories@.len() ==> cat_wf(#[trigger] a.categories@[i])
}

/// The name of the numbered slot holding ordinal `ordinal` of the save with
/// real index `idx`, in the category named `cat`.
pub open spec fn slot_name_seq(cat: Seq<char>, ordinal: nat, idx: nat) -> Seq<char> {
    cat + seq!['_'] + dec_digits(ordinal) + seq!['_'] + dec_digits(idx)
}

/// The name of the autosave slot for ordinal `ordinal` of the category
/// named `cat`.
pub open spec fn auto_name_seq(cat: Seq<char>, ordinal: nat) -> Seq<char> {
    cat + seq!['_'] + dec_digits(ordinal) + seq!['_'] + "auto"@
}

/// `name`, placed under the directory `dir`.
pub open spec fn joined(dir: Seq<char>, name: Seq<char>) -> Seq<char> {
    dir + seq!['/'] + name
}

/// Whether `a` and the contents of `b` are the same string.
pub fn str_eq_string(a: &str, b: &String) -> (r: bool)
    ensures
        r == (a@ == b@),
{
    let owned = a.to_owned();
    owned == *b
}

/// Whether the save carries `name` as its display name.
pub fn save_has_name(s: &Save, name: &str) -> (r: bool)
    ensures
        r == (s.name matches Some(n) && n@ == name@),
{
    match &s.name {
        Some(n) => str_eq_string(name, n),
        None => false,
    }
}

/// The full path of a numbered slot under the data directory `dir`.
pub fn slot_path(dir: &str, cat: &String, ordinal: usize, idx: usize) -> (r: String)
    ensures
        r@ == joined(dir@, slot_name_seq(cat@, ordinal as nat, idx as nat)),
{
    proof {
        reveal_strlit("/");
        reveal_strlit("_");
    }
    let mut r = dir.to_owned();
    r.append("/");
    r.append(cat.as_str());
    r.append("_");
    let ord = usize_to_string(ordinal);
    r.append(ord.as_str());
    r.append("_");
    let ix = usize_to_string(idx);
    r.append(ix.as_str());
    proof {
        assert(r@ =~= joined(dir@, slot_name_seq(cat@, ordinal as nat, idx as nat)));
    }
    r
}

/// The full path of an autosave slot under the data directory `dir`.
pub fn auto_slot_path(dir: &str, cat: &String, ordinal: usize) -> (r: String)
    ensures
        r@ == joined(dir@, auto_name_seq(cat@, ordinal as nat)),
{
    proof {
        reveal_strlit("/");
        reveal_strlit("_");
    }
    let mut r = dir.to_owned();
    r.append("/");
    r.append(cat.as_str());
    r.append("_");
    let ord = usize_to_string(ordinal);
    r.append(ord.as_str());
    r.append("_");
    r.append("auto");
    proof {
        assert(r@ =~= joined(dir@, auto_name_seq(cat@, ordinal as nat)));
    }
    r
}

impl App {
    /// The active category, read-only.
    pub fn current_category(&self) -> (r: Result<&Category, Error>)
        ensures
            self.current is None ==> (r matches Err(e) && e == Error::NoActiveCategory),
            self.current matches Some(cur) ==> (r matches Ok(c) ==> ((exists|i: int|
                0 <= i < self.categories@.len() && self.categories@[i] == *c) && c.name@ == cur@)),
            self.current matches Some(cur) ==> (r matches Err(e) ==> (e == Error::CategoryNotFound
                && (forall|j: int|
                    0 <= j < self.categories@.len()
                        ==> #[trigger] self.categories@[j].name@ != cur@))),
    {
        match &self.current {
            None => Err(Error::NoActiveCategory),
            Some(cur) => self.get_category(cur.as_str()),
        }
    }

    /// The active category, for mutation.  On success the final state of
    /// the whole ledger is the old one with only that category replaced.
    pub fn current_category_mut(&mut self) -> (r: Result<&mut Category, Error>)
        ensures
            r matches Err(e) ==> (*final(self) == *old(self)
                && (e == Error::NoActiveCategory <==> old(self).current is None)
                && (old(self).current is None ==> e == Error::NoActiveCategory)
                && (old(self).current matches Some(cur) ==> (e == Error::CategoryNotFound
                    && (forall|j: int|
                        0 <= j < old(self).categories@.len()
                            ==> #[trigger] old(self).categories@[j].name@ != cur@)))),
            r matches Ok(c) ==> (old(self).current matches Some(cur) && c.name@ == cur@
                && (exists|i: int|
                    0 <= i < old(self).categories@.len() && *c == old(self).categories@[i]
                        && final(self).categories@ == old(self).categories@.update(
                        i,
                        *final(c),
                    )) && final(self).current == old(self).current),
    {
        let cur = match &self.current {
            None => { return Err(Error::NoActiveCategory); },
            Some(cur) => cur.clone(),
        };
        let index = match self.get_category_index(cur.as_str()) {
            Err(e) => { return Err(e); },
            Ok(index) => index,
        };
        Ok(&mut self.categories[index])
    }

    /// The category named `name`, read-only.
    pub fn get_category(&self, name: &str) -> (r: Result<&Category, Error>)
        ensures
            r matches Ok(c) ==> ((exists|i: int|
                0 <= i < self.categories@.len() && self.categories@[i] == *c) && c.name@ == name@),
            r matches Err(e) ==> (e == Error::CategoryNotFound && (forall|j: int|
                0 <= j < self.categories@.len()
                    ==> #[trigger] self.categories@[j].name@ != name@)),
            (exists|i: int|
                0 <= i < self.categories@.len()
                    && #[trigger] self.categories@[i].name@ == name@) <==> r is Ok,
    {
        match self.get_category_index(name) {
            Ok(i) => Ok(&self.categories[i]),
            Err(e) => Err(e),
        }
    }

    /// The position of the category named `name` in the ledger.
    pub fn get_category_index(&self, name: &str) -> (r: Result<usize, Error>)
        ensures
            r matches Ok(i) ==> (0 <= i < self.categories@.len()
                && self.categories@[i as int].name@ == name@ && (forall|j: int|
                    0 <= j < i ==> #[trigger] self.categories@[j].name@ != name@)),
            r matches Err(e) ==> (e == Error::CategoryNotFound && (forall|j: int|
                0 <= j < self.categories@.len()
                    ==> #[trigger] self.categories@[j].name@ != name@)),
            (exists|i: int|
                0 <= i < self.categories@.len()
                    && #[trigger] self.categories@[i].name@ == name@) <==> r is Ok,
    {
        let n = self.categories.len();
        let mut i: usize = 0;
        while i < n
            invariant
                0 <= i <= n,
                n == self.categories@.len(),
                forall|j: int| 0 <= j < i ==> #[trigger] self.categories@[j].name@ != name@,
            decreases n - i,
        {
            if str_eq_string(name, &self.categories[i].name) {
                return Ok(i);
            }
            i = i + 1;
        }
        Err(Error::CategoryNotFound)
    }
}

impl Category {
    /// The save carrying the display name `name`, read-only.
    pub fn get_save(&self, name: &str) -> (r: Result<&Save, Error>)
        ensures
            r matches Ok(s) ==> ((exists|i: int|
                0 <= i < self.saves@.len() && self.saves@[i] == *s) && (s.name matches Some(n)
                && n@ == name@)),
            r matches Err(e) ==> (e == Error::SaveNotFound && (forall|j: int|
                0 <= j < self.saves@.len()
                    ==> !((#[trigger] self.saves@[j]).name matches Some(n) && n@ == name@))),
            (exists|i: int|
                (#[trigger] self.saves@[i]).name matches Some(n)
                    && 0 <= i < self.saves@.len() && n@ == name@) <==> r is Ok,
    {
        match self.get_save_index(name) {
            Ok(i) => Ok(&self.saves[i]),
            Err(e) => Err(e),
        }
    }

    /// The position of the save carrying the display name `name`.
    pub fn get_save_index(&self, name: &str) -> (r: Result<usize, Error>)
        ensures
            r matches Ok(i) ==> (0 <= i < self.saves@.len()
                && (self.saves@[i as int].name matches Some(n) && n@ == name@) && (forall|j: int|
                    0 <= j < i
                        ==> !((#[trigger] self.saves@[j]).name matches Some(n) && n@ == name@))),
            r matches Err(e) ==> (e == Error::SaveNotFound && (forall|j: int|
                0 <= j < self.saves@.len()
                    ==> !((#[trigger] self.saves@[j]).name matches Some(n) && n@ == name@))),
            (exists|i: int|
                (#[trigger] self.saves@[i]).name matches Some(n)
                    && 0 <= i < self.saves@.len() && n@ == name@) <==> r is Ok,
    {
        let n = self.saves.len();
        let mut i: usize = 0;
        while i < n
            invariant
                0 <= i <= n,
                n == self.saves@.len(),
                forall|j: int|
                    0 <= j < i
                        ==> !((#[trigger] self.saves@[j]).name matches Some(m) && m@ == name@),
            decreases n - i,
        {
            if save_has_name(&self.saves[i], name) {
                return Ok(i);
            }
            i = i + 1;
        }
        Err(Error::SaveNotFound)
    }

    /// The full paths of this category's autosave slots, one per tracked
    /// ordinal, under the data directory `dir`.
    pub fn get_auto_paths(&self, dir: &str) -> (r: Vec<String>)
        ensures
            r@.len() == self.paths@.len(),
            forall|p: int|
                0 <= p < r@.len()
                    ==> #[trigger] r@[p]@ == joined(dir@, auto_name_seq(self.name@, (p + 1) as nat)),
    {
        let n = self.paths.len();
        let mut r: Vec<String> = Vec::new();
        let mut p: usize = 0;
        while p < n
            invariant
                0 <= p <= n,
                n == self.paths@.len(),
                r@.len() == p,
                forall|q: int|
                    0 <= q < p
                        ==> #[trigger] r@[q]@ == joined(
                        dir@,
                        auto_name_seq(self.name@, (q + 1) as nat),
                    ),
            decreases n - p,
        {
            r.push(auto_slot_path(dir, &self.name, p + 1));
            p = p + 1;
        }
        r
    }
}

impl Save {
    /// The full paths of this save's numbered slots, one per tracked
    /// ordinal of its category, under the data directory `dir`.
    pub fn get_paths(&self, category: &Category, dir: &str) -> (r: Vec<String>)
        ensures
            r@.len() == category.paths@.len(),
            forall|p: int|
                0 <= p < r@.len()
                    ==> #[trigger] r@[p]@ == joined(
                    dir@,
                    slot_name_seq(category.name@, (p + 1) as nat, self.real_index as nat),
                ),
    {
        let n = category.paths.len();
        let mut r: Vec<String> = Vec::new();
        let mut p: usize = 0;
        while p < n
            invariant
                0 <= p <= n,
                n == category.paths@.len(),
                r@.len() == p,
                forall|q: int|
                    0 <= q < p
                        ==> #[trigger] r@[q]@ == joined(
                        dir@,
                        slot_name_seq(category.name@, (q + 1) as nat, self.real_index as nat),
                    ),
            decreases n - p,
        {
            r.push(slot_path(dir, &category.name, p + 1, self.real_index));
            p = p + 1;
        }
        r
    }
}

} // verus!
