use vstd::prelude::*;

use crate::storage::{
    fold_eaters, fold_eaters_fits, fold_pots, fold_pots_fits, pots_view, resolve, stats_index, stats_view,
    stats_of, with_stats, bump, eat_step, eat_step_fits, Eater, EaterStats, Pot, PotView, StatsView, Storage, StorageView,
};

verus! {

broadcast use crate::storage::group_views;

/// A business-rule failure, reported to the caller as a user error.
#[derive(PartialEq, Eq, Structural, Debug, Clone, Copy)]
pub enum UserError {
    /// The selector points at no pot.
    NotFound,
    /// The name already eats in the pot.
    AlreadyJoined,
    /// The name does not eat in the pot.
    NotInPot,
}

/// A three-valued update of an optional field.
pub enum NoteEdit {
    /// Leave the field as it is.
    Absent,
    /// Clear the field.
    Clear,
    /// Replace the field's value.
    Replace(String),
}

/// Whether some eater of the list carries `name`.
pub open spec fn has_eater(eaters: Seq<Eater>, name: Seq<char>) -> bool {
    exists|k: int| 0 <= k < eaters.len() && #[trigger] eaters[k].name@ == name
}

/// The list without the eaters that carry `name`, order kept.
pub open spec fn without_eater(eaters: Seq<Eater>, name: Seq<char>) -> Seq<Eater>
    decreases eaters.len(),
{
    if eaters.len() == 0 {
        eaters
    } else if eaters.last().name@ == name {
        without_eater(eaters.drop_last(), name)
    } else {
        without_eater(eaters.drop_last(), name).push(eaters.last())
    }
}

/// The position of the first eater that carries `name`, if any.
pub open spec fn find_eater(eaters: Seq<Eater>, name: Seq<char>) -> Option<int>
    decreases eaters.len(),
{
    if eaters.len() == 0 {
        None
    } else {
        match find_eater(eaters.drop_last(), name) {
            Some(i) => Some(i),
            None => if eaters.last().name@ == name {
                Some(eaters.len() - 1)
            } else {
                None
            },
        }
    }
}

/// The totals list after `name` has hosted a pot.
pub open spec fn host_step(stats: Seq<StatsView>, name: Seq<char>) -> Seq<StatsView> {
    let s = with_stats(stats, name);
    let i = stats_index(stats, name);
    s.update(i, StatsView { pot_count: s[i].pot_count + 1, ..s[i] })
}

/// The value of `field` after an optional replacement.
pub open spec fn replaced(field: String, new: Option<String>) -> String {
    match new {
        Some(v) => v,
        None => field,
    }
}

/// The value of the note after a three-valued update.
pub open spec fn edited_note(note: Option<String>, edit: NoteEdit) -> Option<String> {
    match edit {
        NoteEdit::Absent => note,
        NoteEdit::Clear => None,
        NoteEdit::Replace(v) => Some(v),
    }
}

/// Once a prefix holds a name, the whole list finds it at the same place.
proof fn lemma_find_eater_prefix(eaters: Seq<Eater>, name: Seq<char>, k: int)
    requires
        0 <= k <= eaters.len(),
        find_eater(eaters.subrange(0, k), name).is_some(),
    ensures
        find_eater(eaters, name) == find_eater(eaters.subrange(0, k), name),
    decreases eaters.len(),
{
    if k < eaters.len() {
        assert(eaters.drop_last().subrange(0, k) =~= eaters.subrange(0, k));
        lemma_find_eater_prefix(eaters.drop_last(), name, k);
    } else {
        assert(eaters.subrange(0, k) =~= eaters);
    }
}

/// Whether some eater of the list carries `name`.
fn eats_in(eaters: &Vec<Eater>, name: &String) -> (r: bool)
    ensures
        r == has_eater(eaters@, name@),
{
    let mut i: usize = 0;
    while i < eaters.len()
        invariant
            i <= eaters@.len(),
            forall|j: int| 0 <= j < i ==> #[trigger] eaters@[j].name@ != name@,
        decreases eaters.len() - i,
    {
        if eaters[i].name == *name {
            return true;
        }
        i += 1;
    }
    false
}

/// The position of the first eater that carries `name`, if any.
fn eater_position(eaters: &Vec<Eater>, name: &String) -> (r: Option<usize>)
    ensures
        r.is_some() == find_eater(eaters@, name@).is_some(),
        r.is_some() ==> r.unwrap() as int == find_eater(eaters@, name@).unwrap() && r.unwrap()
            < eaters@.len(),
{
    let mut i: usize = 0;
    while i < eaters.len()
        invariant
            i <= eaters@.len(),
            find_eater(eaters@.subrange(0, i as int), name@).is_none(),
        decreases eaters.len() - i,
    {
        proof {
            assert(eaters@.subrange(0, i as int + 1).drop_last() =~= eaters@.subrange(0, i as int));
        }
        if eaters[i].name == *name {
            proof {
                lemma_find_eater_prefix(eaters@, name@, i as int + 1);
            }
            return Some(i);
        }
        i += 1;
    }
    proof {
        assert(eaters@.subrange(0, i as int) =~= eaters@);
    }
    None
}

/// Removes every eater that carries `name`, keeping the others in order.
fn remove_eater(eaters: &mut Vec<Eater>, name: &String)
    ensures
        final(eaters)@ == without_eater(old(eaters)@, name@),
{
    let ghost orig = old(eaters)@;
    let mut kept: Vec<Eater> = Vec::new();
    let mut i: usize = 0;
    while i < eaters.len()
        invariant
            i <= eaters@.len(),
            eaters@ == orig,
            kept@ == without_eater(orig.subrange(0, i as int), name@),
        decreases eaters.len() - i,
    {
        proof {
            assert(orig.subrange(0, i as int + 1).drop_last() =~= orig.subrange(0, i as int));
        }
        if eaters[i].name != *name {
            kept.push(eaters[i].clone());
        }
        i += 1;
    }
    proof {
        assert(orig.subrange(0, i as int) =~= orig);
    }
    *eaters = kept;
}

/// Folds one eater's quantities into their totals.
fn add_eaten(storage: &mut Storage, e: &Eater)
    requires
        crate::storage::eat_step_fits(old(storage)@.stats, *e),
    ensures
        final(storage)@ == (StorageView {
            stats: crate::storage::eat_step(old(storage)@.stats, *e),
            ..old(storage)@
        }),
{
    proof {
        crate::storage::lemma_stats_index(old(storage)@.stats, e.name@);
    }
    let st = storage.stats_mut(e.name.as_str());
    st.eat_count = st.eat_count + 1;
    st.mian = st.mian + e.mian;
    st.fan = st.fan + e.fan;
}

/// Folds every eater of a list, in order, into their totals.
fn add_all_eaten(storage: &mut Storage, eaters: &Vec<Eater>)
    requires
        fold_eaters_fits(old(storage)@.stats, eaters@),
    ensures
        final(storage)@ == (StorageView {
            stats: fold_eaters(old(storage)@.stats, eaters@),
            ..old(storage)@
        }),
{
    let ghost st0 = old(storage)@.stats;
    let mut i: usize = 0;
    while i < eaters.len()
        invariant
            i <= eaters@.len(),
            fold_eaters_fits(st0, eaters@),
            storage@ == (StorageView { stats: fold_eaters(st0, eaters@.subrange(0, i as int)), ..old(storage)@ }),
        decreases eaters.len() - i,
    {
        proof {
            let pre = eaters@.subrange(0, i as int + 1);
            assert(pre.drop_last() =~= eaters@.subrange(0, i as int));
            lemma_fold_eaters_fits_prefix(st0, eaters@, i as int + 1);
        }
        add_eaten(storage, &eaters[i]);
        i += 1;
    }
    proof {
        assert(eaters@.subrange(0, i as int) =~= eaters@);
    }
}

/// A fold that fits in `i32`s fits at every prefix.
proof fn lemma_fold_eaters_fits_prefix(stats: Seq<StatsView>, eaters: Seq<Eater>, k: int)
    requires
        0 <= k <= eaters.len(),
        fold_eaters_fits(stats, eaters),
    ensures
        fold_eaters_fits(stats, eaters.subrange(0, k)),
    decreases eaters.len(),
{
    if k < eaters.len() {
        assert(eaters.drop_last().subrange(0, k) =~= eaters.subrange(0, k));
        lemma_fold_eaters_fits_prefix(stats, eaters.drop_last(), k);
    } else {
        assert(eaters.subrange(0, k) =~= eaters);
    }
}

/// Whether the totals are in descending order of finished pots.
pub open spec fn by_eat_count_desc(s: Seq<StatsView>) -> bool {
    forall|i: int, j: int| 0 <= i < j < s.len() ==> #[trigger] s[i].eat_count >= #[trigger] s[j].eat_count
}

/// How many of `n` ranked entries a `top` limit keeps: all of them when no limit,
/// a negative one or one beyond `n` is given.
pub open spec fn kept_len(n: int, top: Option<i32>) -> int {
    match top {
        Some(t) => if 0 <= t < n {
            t as int
        } else {
            n
        },
        None => n,
    }
}

/// The totals ranked by finished pots, most first.
fn rank_by_eat_count(stats: &Vec<EaterStats>) -> (r: Vec<EaterStats>)
    ensures
        by_eat_count_desc(stats_view(r@)),
        stats_view(r@).to_multiset() == stats_view(stats@).to_multiset(),
{
    broadcast use vstd::seq_lib::group_to_multiset_ensures;

    let mut r: Vec<EaterStats> = Vec::new();
    let mut i: usize = 0;
    while i < stats.len()
        invariant
            i <= stats@.len(),
            by_eat_count_desc(stats_view(r@)),
            stats_view(r@).to_multiset() == stats_view(stats@.subrange(0, i as int)).to_multiset(),
        decreases stats.len() - i,
    {
        let x = stats[i].clone();
        let mut j: usize = 0;
        while j < r.len() && r[j].eat_count >= x.eat_count
            invariant
                j <= r@.len(),
                forall|k: int| 0 <= k < j ==> #[trigger] r@[k].eat_count >= x.eat_count,
            decreases r.len() - j,
        {
            j += 1;
        }
        let ghost before = stats_view(r@);
        proof {
            assert forall|k: int| j <= k < before.len() implies #[trigger] before[k].eat_count
                < x.eat_count by {
                assert(r@[j as int].eat_count < x.eat_count);
                if k > j {
                    assert(before[j as int].eat_count >= before[k].eat_count);
                }
            }
        }
        r.insert(j, x);
        proof {
            assert(stats_view(r@) =~= before.insert(j as int, x@));
            vstd::seq_lib::to_multiset_insert(before, j as int, x@);
            let pre = stats@.subrange(0, i as int + 1);
            assert(stats_view(pre) =~= stats_view(stats@.subrange(0, i as int)).push(stats@[i as int]@));
            vstd::seq_lib::to_multiset_build(stats_view(stats@.subrange(0, i as int)), stats@[i as int]@);
            let after = stats_view(r@);
            assert forall|a: int, b: int| 0 <= a < b < after.len() implies #[trigger] after[a].eat_count
                >= #[trigger] after[b].eat_count by {
                if a < j && b < j {
                    assert(after[a] == before[a] && after[b] == before[b]);
                } else if a < j && b == j {
                } else if a < j {
                    assert(after[b] == before[b - 1]);
                } else if a == j {
                    assert(after[b] == before[b - 1]);
                } else {
                    assert(after[a] == before[a - 1] && after[b] == before[b - 1]);
                }
            }
        }
        i += 1;
    }
    proof {
        assert(stats@.subrange(0, i as int) =~= stats@);
    }
    r
}

/// Copies a list of totals entry by entry.
fn copy_stats(v: &Vec<EaterStats>) -> (r: Vec<EaterStats>)
    ensures
        stats_view(r@) == stats_view(v@),
{
    let mut r: Vec<EaterStats> = Vec::new();
    let mut i: usize = 0;
    while i < v.len()
        invariant
            i <= v@.len(),
            stats_view(r@) == stats_view(v@.subrange(0, i as int)),
        decreases v.len() - i,
    {
        let c = v[i].clone();
        proof {
            assert(stats_view(v@.subrange(0, i as int + 1)) =~= stats_view(v@.subrange(0, i as int)).push(c@));
        }
        r.push(c);
        i += 1;
    }
    proof {
        assert(v@.subrange(0, i as int) =~= v@);
    }
    r
}

/// A scratch store that holds only a copy of the totals of `storage`.
fn scratch_of(storage: &Storage) -> (r: Storage)
    ensures
        r@.stats == storage@.stats,
{
    Storage::from_parts(0, Vec::new(), copy_stats(&storage.stats))
}

/// Folds `eaters`, in order, into the totals of `scratch` for as long as every
/// step stays within `i32`s, and tells whether all of them did.
fn fold_fits_in(scratch: &mut Storage, eaters: &Vec<Eater>) -> (r: bool)
    ensures
        r == fold_eaters_fits(old(scratch)@.stats, eaters@),
        r ==> final(scratch)@.stats == fold_eaters(old(scratch)@.stats, eaters@),
{
    let ghost st0 = old(scratch)@.stats;
    let mut i: usize = 0;
    while i < eaters.len()
        invariant
            i <= eaters@.len(),
            st0 == old(scratch)@.stats,
            fold_eaters_fits(st0, eaters@.subrange(0, i as int)),
            scratch@.stats == fold_eaters(st0, eaters@.subrange(0, i as int)),
        decreases eaters.len() - i,
    {
        let e = &eaters[i];
        proof {
            assert(eaters@.subrange(0, i as int + 1).drop_last() =~= eaters@.subrange(0, i as int));
            crate::storage::lemma_stats_index(scratch@.stats, e.name@);
        }
        let st = scratch.stats_mut(e.name.as_str());
        let ghost cur = st@;
        let m = st.mian as i64 + e.mian as i64;
        let f = st.fan as i64 + e.fan as i64;
        let c = st.eat_count as i64 + 1;
        if m < i32::MIN as i64 || m > i32::MAX as i64 || f < i32::MIN as i64 || f > i32::MAX as i64
            || c > i32::MAX as i64 {
            proof {
                let sv = fold_eaters(st0, eaters@.subrange(0, i as int));
                assert(eaters@.subrange(0, i as int + 1).last() == *e);
                assert(eat_step(sv, *e)[stats_index(sv, e.name@)] == bump(cur, *e));
                assert(!eat_step_fits(sv, *e));
                if fold_eaters_fits(st0, eaters@) {
                    lemma_fold_eaters_fits_prefix(st0, eaters@, i as int + 1);
                }
            }
            return false;
        }
        st.mian = m as i32;
        st.fan = f as i32;
        st.eat_count = c as i32;
        i += 1;
    }
    proof {
        assert(eaters@.subrange(0, i as int) =~= eaters@);
    }
    true
}

/// The read-only operations.
pub struct Query;

/// The operations that change the store.
pub struct Mutations;

impl Query {
    /// Everyone's totals ranked by finished pots, most first, cut to the first
    /// `top` entries when `top` is a count below the number of entries.
    pub fn stats(storage: &Storage, top: Option<i32>) -> (r: Vec<EaterStats>)
        ensures
            stats_view(r@).len() == kept_len(storage@.stats.len() as int, top),
            exists|ranked: Seq<StatsView>|
                {
                    &&& by_eat_count_desc(ranked)
                    &&& #[trigger] ranked.to_multiset() == storage@.stats.to_multiset()
                    &&& stats_view(r@) == ranked.subrange(0, kept_len(storage@.stats.len() as int, top))
                },
    {
        let mut r = rank_by_eat_count(&storage.stats);
        let ghost ranked = stats_view(r@);
        proof {
            vstd::seq_lib::to_multiset_len(ranked);
            vstd::seq_lib::to_multiset_len(storage@.stats);
        }
        if let Some(t) = top {
            if 0 <= t && (t as usize) < r.len() {
                r.truncate(t as usize);
            }
        }
        proof {
            assert(stats_view(r@) =~= ranked.subrange(0, kept_len(storage@.stats.len() as int, top)));
        }
        r
    }

    /// Every open pot, in list order.
    pub fn pots(storage: &Storage) -> (r: Vec<Pot>)
        ensures
            pots_view(r@) == storage@.pots,
    {
        let mut r: Vec<Pot> = Vec::new();
        let mut i: usize = 0;
        while i < storage.pots.len()
            invariant
                i <= storage.pots@.len(),
                pots_view(storage.pots@) == storage@.pots,
                pots_view(r@) == storage@.pots.subrange(0, i as int),
            decreases storage.pots.len() - i,
        {
            let p = storage.pots[i].clone();
            proof {
                assert(pots_view(r@.push(p)) =~= pots_view(r@).push(p@));
            }
            r.push(p);
            i += 1;
            proof {
                assert(pots_view(r@) =~= storage@.pots.subrange(0, i as int));
            }
        }
        proof {
            assert(storage@.pots.subrange(0, i as int) =~= storage@.pots);
        }
        r
    }

    /// The pot a selector points at.
    pub fn pot(storage: &Storage, id: Option<i32>, index: Option<i32>) -> (r: Result<Pot, UserError>)
        ensures
            match resolve(storage@.pots, id, index) {
                None => r == Err::<Pot, UserError>(UserError::NotFound),
                Some(i) => r matches Ok(p) && p@ == storage@.pots[i],
            },
    {
        match storage.pot(id, index) {
            Some(p) => Ok(p.clone()),
            None => Err(UserError::NotFound),
        }
    }
}

impl Mutations {
    /// Whether opening a pot hosted by `name` keeps the id counter and the
    /// host's count of hosted pots within `i32`s.
    pub fn new_pot_fits(storage: &Storage, name: &String) -> (r: bool)
        ensures
            r == (storage@.counter < i32::MAX && stats_of(storage@.stats, name@).pot_count
                < i32::MAX),
    {
        if storage.last_id() == i32::MAX {
            return false;
        }
        let mut scratch = scratch_of(storage);
        proof {
            crate::storage::lemma_stats_index(scratch@.stats, name@);
        }
        let st = scratch.stats_mut(name.as_str());
        st.pot_count < i32::MAX
    }

    /// Whether finishing the selected pot keeps every total within `i32`s at
    /// every step; true when the selector finds no pot.
    pub fn finish_fits(storage: &Storage, id: Option<i32>, index: Option<i32>) -> (r: bool)
        ensures
            r == (resolve(storage@.pots, id, index) matches Some(i) ==> fold_eaters_fits(
                storage@.stats,
                storage@.pots[i].eaters,
            )),
    {
        match storage.pot(id, index) {
            None => true,
            Some(p) => {
                let mut scratch = scratch_of(storage);
                fold_fits_in(&mut scratch, &p.eaters)
            },
        }
    }

    /// Whether clearing keeps every total within `i32`s at every step.
    pub fn clear_fits(storage: &Storage) -> (r: bool)
        ensures
            r == fold_pots_fits(storage@.stats, storage@.pots),
    {
        let ghost ps = storage@.pots;
        let ghost st0 = storage@.stats;
        let mut scratch = scratch_of(storage);
        let mut i: usize = 0;
        while i < storage.pots.len()
            invariant
                i <= storage.pots@.len(),
                ps == storage@.pots,
                st0 == storage@.stats,
                fold_pots_fits(st0, ps.subrange(0, i as int)),
                scratch@.stats == fold_pots(st0, ps.subrange(0, i as int)),
            decreases storage.pots.len() - i,
        {
            proof {
                assert(ps.subrange(0, i as int + 1).drop_last() =~= ps.subrange(0, i as int));
                assert(ps[i as int] == storage.pots@[i as int]@);
            }
            if !fold_fits_in(&mut scratch, &storage.pots[i].eaters) {
                proof {
                    if fold_pots_fits(st0, ps) {
                        lemma_fold_pots_fits_prefix(st0, ps, i as int + 1);
                    }
                }
                return false;
            }
            i += 1;
        }
        proof {
            assert(ps.subrange(0, i as int) =~= ps);
        }
        true
    }

    /// Opens a pot hosted by `name`, who becomes its first eater.
    pub fn new_pot(
        storage: &mut Storage,
        position: String,
        time: String,
        taste: String,
        name: String,
        mian: i32,
        fan: i32,
        note: Option<String>,
    ) -> (r: Pot)
        requires
            old(storage)@.counter < i32::MAX,
            stats_of(old(storage)@.stats, name@).pot_count < i32::MAX,
        ensures
            r@ == (PotView {
                id: (old(storage)@.counter + 1) as i32,
                position,
                time,
                taste,
                eaters: seq![Eater { name, mian, fan }],
                note,
            }),
            final(storage)@ == (StorageView {
                counter: old(storage)@.counter + 1,
                pots: old(storage)@.pots.push(r@),
                stats: host_step(old(storage)@.stats, name@),
            }),
    {
        proof {
            crate::storage::lemma_stats_index(old(storage)@.stats, name@);
        }
        let id = storage.counter();
        let mut eaters: Vec<Eater> = Vec::new();
        eaters.push(Eater { name: name.clone(), mian, fan });
        let pot = Pot { id, position, time, taste, eaters, note };
        let copy = pot.clone();
        proof {
            assert(pots_view(storage.pots@.push(pot)) =~= pots_view(storage.pots@).push(pot@));
            assert(pot@.eaters =~= seq![Eater { name, mian, fan }]);
        }
        storage.pots.push(pot);
        let st = storage.stats_mut(name.as_str());
        st.pot_count = st.pot_count + 1;
        copy
    }

    /// Adds `name` with their quantities to the selected pot.
    pub fn eat(
        storage: &mut Storage,
        id: Option<i32>,
        index: Option<i32>,
        name: String,
        mian: i32,
        fan: i32,
    ) -> (r: Result<Pot, UserError>)
        ensures
            match resolve(old(storage)@.pots, id, index) {
                None => r == Err::<Pot, UserError>(UserError::NotFound) && final(storage)@
                    == old(storage)@,
                Some(i) => if has_eater(old(storage)@.pots[i].eaters, name@) {
                    r == Err::<Pot, UserError>(UserError::AlreadyJoined) && final(storage)@
                        == old(storage)@
                } else {
                    let p = PotView {
                        eaters: old(storage)@.pots[i].eaters.push(Eater { name, mian, fan }),
                        ..old(storage)@.pots[i]
                    };
                    &&& r matches Ok(q) && q@ == p
                    &&& final(storage)@ == (StorageView {
                        pots: old(storage)@.pots.update(i, p),
                        ..old(storage)@
                    })
                },
            },
    {
        match storage.pot_mut(id, index) {
            None => Err(UserError::NotFound),
            Some(pot) => {
                proof {
                    let i = resolve(old(storage)@.pots, id, index).unwrap();
                    assert(old(storage)@.pots.update(i, old(storage)@.pots[i]) =~= old(storage)@.pots);
                }
                if eats_in(&pot.eaters, &name) {
                    return Err(UserError::AlreadyJoined);
                }
                pot.eaters.push(Eater { name, mian, fan });
                Ok(pot.clone())
            },
        }
    }

    /// Removes the selected pot and folds its eaters into their totals.
    pub fn finish(storage: &mut Storage, id: Option<i32>, index: Option<i32>) -> (r: Result<
        Pot,
        UserError,
    >)
        requires
            resolve(old(storage)@.pots, id, index) matches Some(i) ==> fold_eaters_fits(
                old(storage)@.stats,
                old(storage)@.pots[i].eaters,
            ),
        ensures
            match resolve(old(storage)@.pots, id, index) {
                None => r == Err::<Pot, UserError>(UserError::NotFound) && final(storage)@
                    == old(storage)@,
                Some(i) => {
                    &&& r matches Ok(p) && p@ == old(storage)@.pots[i]
                    &&& final(storage)@ == (StorageView {
                        counter: old(storage)@.counter,
                        pots: old(storage)@.pots.remove(i),
                        stats: fold_eaters(old(storage)@.stats, old(storage)@.pots[i].eaters),
                    })
                },
            },
    {
        match storage.locate(id, index) {
            None => Err(UserError::NotFound),
            Some(i) => {
                let ghost before = storage.pots@;
                let pot = storage.pots.remove(i);
                proof {
                    assert(pots_view(storage.pots@) =~= pots_view(before).remove(i as int));
                }
                add_all_eaten(storage, &pot.eaters);
                Ok(pot)
            },
        }
    }

    /// Changes the given fields of the selected pot.
    pub fn edit(
        storage: &mut Storage,
        id: Option<i32>,
        index: Option<i32>,
        position: Option<String>,
        time: Option<String>,
        taste: Option<String>,
        note: NoteEdit,
    ) -> (r: Result<Pot, UserError>)
        ensures
            match resolve(old(storage)@.pots, id, index) {
                None => r == Err::<Pot, UserError>(UserError::NotFound) && final(storage)@
                    == old(storage)@,
                Some(i) => {
                    let o = old(storage)@.pots[i];
                    let p = PotView {
                        position: replaced(o.position, position),
                        time: replaced(o.time, time),
                        taste: replaced(o.taste, taste),
                        note: edited_note(o.note, note),
                        ..o
                    };
                    &&& r matches Ok(q) && q@ == p
                    &&& final(storage)@ == (StorageView {
                        pots: old(storage)@.pots.update(i, p),
                        ..old(storage)@
                    })
                },
            },
    {
        match storage.pot_mut(id, index) {
            None => Err(UserError::NotFound),
            Some(pot) => {
                if let Some(v) = position {
                    pot.position = v;
                }
                if let Some(v) = time {
                    pot.time = v;
                }
                if let Some(v) = taste {
                    pot.taste = v;
                }
                match note {
                    NoteEdit::Absent => {},
                    NoteEdit::Clear => {
                        pot.note = None;
                    },
                    NoteEdit::Replace(v) => {
                        pot.note = Some(v);
                    },
                }
                Ok(pot.clone())
            },
        }
    }

    /// Takes `name` out of the selected pot; a name that is not there is no error.
    pub fn leave(storage: &mut Storage, id: Option<i32>, index: Option<i32>, name: String) -> (r:
        Result<Pot, UserError>)
        ensures
            match resolve(old(storage)@.pots, id, index) {
                None => r == Err::<Pot, UserError>(UserError::NotFound) && final(storage)@
                    == old(storage)@,
                Some(i) => {
                    let p = PotView {
                        eaters: without_eater(old(storage)@.pots[i].eaters, name@),
                        ..old(storage)@.pots[i]
                    };
                    &&& r matches Ok(q) && q@ == p
                    &&& final(storage)@ == (StorageView {
                        pots: old(storage)@.pots.update(i, p),
                        ..old(storage)@
                    })
                },
            },
    {
        match storage.pot_mut(id, index) {
            None => Err(UserError::NotFound),
            Some(pot) => {
                remove_eater(&mut pot.eaters, &name);
                Ok(pot.clone())
            },
        }
    }

    /// Changes the given quantities of `name` in the selected pot.
    pub fn edit_demand(
        storage: &mut Storage,
        id: Option<i32>,
        index: Option<i32>,
        name: String,
        mian: Option<i32>,
        fan: Option<i32>,
    ) -> (r: Result<Pot, UserError>)
        ensures
            match resolve(old(storage)@.pots, id, index) {
                None => r == Err::<Pot, UserError>(UserError::NotFound) && final(storage)@
                    == old(storage)@,
                Some(i) => match find_eater(old(storage)@.pots[i].eaters, name@) {
                    None => r == Err::<Pot, UserError>(UserError::NotInPot) && final(storage)@
                        == old(storage)@,
                    Some(k) => {
                        let o = old(storage)@.pots[i];
                        let e = o.eaters[k];
                        let p = PotView {
                            eaters: o.eaters.update(
                                k,
                                Eater {
                                    mian: match mian {
                                        Some(m) => m,
                                        None => e.mian,
                                    },
                                    fan: match fan {
                                        Some(f) => f,
                                        None => e.fan,
                                    },
                                    ..e
                                },
                            ),
                            ..o
                        };
                        &&& r matches Ok(q) && q@ == p
                        &&& final(storage)@ == (StorageView {
                            pots: old(storage)@.pots.update(i, p),
                            ..old(storage)@
                        })
                    },
                },
            },
    {
        match storage.pot_mut(id, index) {
            None => Err(UserError::NotFound),
            Some(pot) => {
                proof {
                    let i = resolve(old(storage)@.pots, id, index).unwrap();
                    assert(old(storage)@.pots.update(i, old(storage)@.pots[i]) =~= old(storage)@.pots);
                }
                match eater_position(&pot.eaters, &name) {
                    None => Err(UserError::NotInPot),
                    Some(k) => {
                        let e = &mut pot.eaters[k];
                        if let Some(m) = mian {
                            e.mian = m;
                        }
                        if let Some(f) = fan {
                            e.fan = f;
                        }
                        Ok(pot.clone())
                    },
                }
            },
        }
    }

    /// Finishes every open pot: folds all their eaters into the totals, pot by
    /// pot, and empties the pot list. Reports nothing back.
    pub fn clear(storage: &mut Storage) -> (r: Vec<Pot>)
        requires
            fold_pots_fits(old(storage)@.stats, old(storage)@.pots),
        ensures
            r@.len() == 0,
            final(storage)@ == (StorageView {
                counter: old(storage)@.counter,
                pots: Seq::<PotView>::empty(),
                stats: fold_pots(old(storage)@.stats, old(storage)@.pots),
            }),
    {
        let ghost ps = old(storage)@.pots;
        let ghost st0 = old(storage)@.stats;
        let mut pots: Vec<Pot> = Vec::new();
        std::mem::swap(&mut pots, &mut storage.pots);
        proof {
            assert(pots_view(storage.pots@) =~= Seq::<PotView>::empty());
        }
        let mut i: usize = 0;
        while i < pots.len()
            invariant
                i <= pots@.len(),
                pots_view(pots@) == ps,
                fold_pots_fits(st0, ps),
                storage@ == (StorageView {
                    counter: old(storage)@.counter,
                    pots: Seq::<PotView>::empty(),
                    stats: fold_pots(st0, ps.subrange(0, i as int)),
                }),
            decreases pots.len() - i,
        {
            proof {
                assert(ps.subrange(0, i as int + 1).drop_last() =~= ps.subrange(0, i as int));
                assert(ps[i as int] == pots@[i as int]@);
                lemma_fold_pots_fits_prefix(st0, ps, i as int + 1);
            }
            add_all_eaten(storage, &pots[i].eaters);
            i += 1;
        }
        proof {
            assert(ps.subrange(0, i as int) =~= ps);
        }
        Vec::new()
    }
}

/// Whether no two eaters of the list share a name.
pub open spec fn names_unique(eaters: Seq<Eater>) -> bool {
    forall|i: int, j: int|
        0 <= i < j < eaters.len() ==> #[trigger] eaters[i].name@ != #[trigger] eaters[j].name@
}

/// Joining under a name that does not eat in the pot yet, which is the only way
/// `eat` adds an eater, keeps the eaters' names distinct.
pub proof fn lemma_join_keeps_names_unique(eaters: Seq<Eater>, e: Eater)
    requires
        names_unique(eaters),
        !has_eater(eaters, e.name@),
    ensures
        names_unique(eaters.push(e)),
{
    let t = eaters.push(e);
    assert forall|i: int, j: int| 0 <= i < j < t.len() implies #[trigger] t[i].name@
        != #[trigger] t[j].name@ by {
        assert(t[i] == eaters[i]);
        if j < eaters.len() {
            assert(t[j] == eaters[j]);
        }
    }
}

/// A found eater lies in the list and carries the name; none found means no
/// eater carries it.
proof fn lemma_find_eater_found(eaters: Seq<Eater>, name: Seq<char>)
    ensures
        find_eater(eaters, name) matches Some(k) ==> 0 <= k < eaters.len() && eaters[k].name@ == name,
        find_eater(eaters, name).is_none() ==> forall|j: int|
            0 <= j < eaters.len() ==> #[trigger] eaters[j].name@ != name,
    decreases eaters.len(),
{
    if eaters.len() > 0 {
        lemma_find_eater_found(eaters.drop_last(), name);
        if find_eater(eaters, name).is_none() {
            assert forall|j: int| 0 <= j < eaters.len() implies #[trigger] eaters[j].name@ != name by {
                if j < eaters.len() - 1 {
                    assert(eaters.drop_last()[j] == eaters[j]);
                }
            }
        }
    }
}

/// Folding the eaters of a pot whose names are distinct into the totals adds,
/// for each of them, one finished pot and their portions to that name's totals,
/// and leaves the totals of every name not in the pot as they were.
pub proof fn lemma_finish_totals(stats: Seq<StatsView>, eaters: Seq<Eater>, name: Seq<char>)
    requires
        names_unique(eaters),
    ensures
        stats_of(fold_eaters(stats, eaters), name) == match find_eater(eaters, name) {
            Some(k) => bump(stats_of(stats, name), eaters[k]),
            None => stats_of(stats, name),
        },
    decreases eaters.len(),
{
    if eaters.len() > 0 {
        let pre = eaters.drop_last();
        let e = eaters.last();
        assert(names_unique(pre)) by {
            assert forall|i: int, j: int| 0 <= i < j < pre.len() implies #[trigger] pre[i].name@
                != #[trigger] pre[j].name@ by {
                assert(pre[i] == eaters[i] && pre[j] == eaters[j]);
            }
        }
        lemma_finish_totals(stats, pre, name);
        crate::storage::lemma_stats_of_step(fold_eaters(stats, pre), e, name);
        lemma_find_eater_found(pre, name);
        if name == e.name@ {
            if let Some(k) = find_eater(pre, name) {
                assert(eaters[k].name@ == eaters[eaters.len() - 1].name@);
                assert(pre[k] == eaters[k]);
            }
        } else {
            if let Some(k) = find_eater(pre, name) {
                assert(pre[k] == eaters[k]);
            }
        }
    }
}

/// Whether pot ids grow strictly along the list and none is above the last id
/// handed out.
pub open spec fn ids_increasing(s: StorageView) -> bool {
    &&& forall|i: int, j: int|
        0 <= i < j < s.pots.len() ==> #[trigger] s.pots[i].id < #[trigger] s.pots[j].id
    &&& forall|i: int| 0 <= i < s.pots.len() ==> #[trigger] s.pots[i].id <= s.counter
}

/// Opening a pot hands out an id above every id handed out before, and it
/// becomes the last id: so successive pots get strictly increasing ids that
/// never repeat, and the open pots stay in increasing id order.
pub proof fn lemma_new_pot_ids(before: StorageView, after: StorageView, p: PotView)
    requires
        ids_increasing(before),
        p.id == before.counter + 1,
        after.counter == before.counter + 1,
        after.pots == before.pots.push(p),
    ensures
        ids_increasing(after),
        p.id > before.counter,
        after.counter == p.id,
        forall|i: int| 0 <= i < before.pots.len() ==> #[trigger] before.pots[i].id < p.id,
{
    assert forall|i: int, j: int| 0 <= i < j < after.pots.len() implies #[trigger] after.pots[i].id
        < #[trigger] after.pots[j].id by {
        assert(after.pots[i] == before.pots[i]);
        if j < before.pots.len() {
            assert(after.pots[j] == before.pots[j]);
        }
    }
    assert forall|i: int| 0 <= i < after.pots.len() implies #[trigger] after.pots[i].id
        <= after.counter by {
        if i < before.pots.len() {
            assert(after.pots[i] == before.pots[i]);
        }
    }
}

/// The other changes of the pot list keep the ids in increasing order: changing
/// a pot in place without touching its id, removing a pot, removing them all.
pub proof fn lemma_ids_kept(s: StorageView, i: int, p: PotView)
    requires
        ids_increasing(s),
        0 <= i < s.pots.len(),
        p.id == s.pots[i].id,
    ensures
        ids_increasing(StorageView { pots: s.pots.update(i, p), ..s }),
        ids_increasing(StorageView { pots: s.pots.remove(i), ..s }),
        ids_increasing(StorageView { pots: Seq::<PotView>::empty(), ..s }),
{
    let r = s.pots.remove(i);
    assert forall|a: int, b: int| 0 <= a < b < r.len() implies #[trigger] r[a].id < #[trigger] r[b].id by {
        let a0 = if a < i { a } else { a + 1 };
        let b0 = if b < i { b } else { b + 1 };
        assert(r[a] == s.pots[a0] && r[b] == s.pots[b0]);
    }
    assert forall|a: int| 0 <= a < r.len() implies #[trigger] r[a].id <= s.counter by {
        let a0 = if a < i { a } else { a + 1 };
        assert(r[a] == s.pots[a0]);
    }
    let u = s.pots.update(i, p);
    assert forall|a: int, b: int| 0 <= a < b < u.len() implies #[trigger] u[a].id < #[trigger] u[b].id by {
        assert(u[a].id == s.pots[a].id && u[b].id == s.pots[b].id);
    }
    assert forall|a: int| 0 <= a < u.len() implies #[trigger] u[a].id <= s.counter by {
        assert(u[a].id == s.pots[a].id);
    }
}

/// A selector that carries an id is resolved by the id alone, whatever index it
/// also carries; a selector with neither an id nor an index finds no pot.
pub proof fn lemma_selector_priority(pots: Seq<PotView>, id: i32, index: Option<i32>)
    ensures
        resolve(pots, Some(id), index) == resolve(pots, Some(id), None),
        resolve(pots, None, None).is_none(),
{
}

/// Leaving a pot under a name that does not eat in it leaves the eater list
/// as it was.
pub proof fn lemma_leave_absent(eaters: Seq<Eater>, name: Seq<char>)
    requires
        !has_eater(eaters, name),
    ensures
        without_eater(eaters, name) == eaters,
    decreases eaters.len(),
{
    if eaters.len() > 0 {
        let pre = eaters.drop_last();
        assert(!has_eater(pre, name)) by {
            if has_eater(pre, name) {
                let k = choose|k: int| 0 <= k < pre.len() && #[trigger] pre[k].name@ == name;
                assert(eaters[k].name@ == name);
            }
        }
        lemma_leave_absent(pre, name);
        assert(eaters.last().name@ != name) by {
            assert(eaters[eaters.len() - 1].name@ != name);
        }
        assert(pre.push(eaters.last()) =~= eaters);
    }
}

/// A fold over pots that fits in `i32`s fits at every prefix.
proof fn lemma_fold_pots_fits_prefix(stats: Seq<StatsView>, pots: Seq<PotView>, k: int)
    requires
        0 <= k <= pots.len(),
        fold_pots_fits(stats, pots),
    ensures
        fold_pots_fits(stats, pots.subrange(0, k)),
    decreases pots.len(),
{
    if k < pots.len() {
        assert(pots.drop_last().subrange(0, k) =~= pots.subrange(0, k));
        lemma_fold_pots_fits_prefix(stats, pots.drop_last(), k);
    } else {
        assert(pots.subrange(0, k) =~= pots);
    }
}

} // verus!
