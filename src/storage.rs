use vstd::prelude::*;

verus! {

/// A participant of a pot, with the quantities they asked for.
pub struct Eater {
    /// Who eats.
    pub name: String,
    /// How many noodle portions.
    pub mian: i32,
    /// How many rice portions.
    pub fan: i32,
}

impl Clone for Eater {
    fn clone(&self) -> (r: Self)
        ensures
            r == *self,
    {
        Eater { name: self.name.clone(), mian: self.mian, fan: self.fan }
    }
}

/// One meal booking.
pub struct Pot {
    /// Identifier, unique over the store's lifetime.
    pub id: i32,
    /// Where.
    pub position: String,
    /// When.
    pub time: String,
    /// Which flavour.
    pub taste: String,
    /// Who joined, in order of joining.
    pub eaters: Vec<Eater>,
    /// A free remark.
    pub note: Option<String>,
}

/// The abstract value of a pot: its fields, with the eater list as a sequence.
pub struct PotView {
    pub id: i32,
    pub position: String,
    pub time: String,
    pub taste: String,
    pub eaters: Seq<Eater>,
    pub note: Option<String>,
}

impl View for Pot {
    type V = PotView;

    open spec fn view(&self) -> PotView {
        PotView {
            id: self.id,
            position: self.position,
            time: self.time,
            taste: self.taste,
            eaters: self.eaters@,
            note: self.note,
        }
    }
}

/// The noodle portions of a list of eaters, added up.
pub open spec fn sum_mian(eaters: Seq<Eater>) -> int
    decreases eaters.len(),
{
    if eaters.len() == 0 {
        0
    } else {
        sum_mian(eaters.drop_last()) + eaters.last().mian
    }
}

/// The rice portions of a list of eaters, added up.
pub open spec fn sum_fan(eaters: Seq<Eater>) -> int
    decreases eaters.len(),
{
    if eaters.len() == 0 {
        0
    } else {
        sum_fan(eaters.drop_last()) + eaters.last().fan
    }
}

impl Eater {
    /// Who eats.
    pub fn name(&self) -> (r: &str)
        ensures
            r@ == self.name@,
    {
        self.name.as_str()
    }

    /// How many noodle portions.
    pub fn mian(&self) -> (r: i32)
        ensures
            r == self.mian,
    {
        self.mian
    }

    /// How many rice portions.
    pub fn fan(&self) -> (r: i32)
        ensures
            r == self.fan,
    {
        self.fan
    }
}

impl Pot {
    /// Identifier.
    pub fn id(&self) -> (r: i32)
        ensures
            r == self.id,
    {
        self.id
    }

    /// Where.
    pub fn position(&self) -> (r: &str)
        ensures
            r@ == self.position@,
    {
        self.position.as_str()
    }

    /// When.
    pub fn time(&self) -> (r: &str)
        ensures
            r@ == self.time@,
    {
        self.time.as_str()
    }

    /// Which flavour.
    pub fn taste(&self) -> (r: &str)
        ensures
            r@ == self.taste@,
    {
        self.taste.as_str()
    }

    /// Who joined, in order of joining.
    pub fn eaters(&self) -> (r: &Vec<Eater>)
        ensures
            r@ == self.eaters@,
    {
        &self.eaters
    }

    /// The remark, if any.
    pub fn note(&self) -> (r: Option<&str>)
        ensures
            r.is_some() == self.note.is_some(),
            r.is_some() ==> r.unwrap()@ == self.note.unwrap()@,
    {
        match &self.note {
            Some(n) => Some(n.as_str()),
            None => None,
        }
    }

    /// Noodle portions of all eaters together.
    pub fn mian(&self) -> (r: i32)
        requires
            forall|k: int| 0 <= k <= self.eaters@.len() ==> fits_i32(
                #[trigger] sum_mian(self.eaters@.subrange(0, k)),
            ),
        ensures
            r == sum_mian(self.eaters@),
    {
        let mut total: i32 = 0;
        let mut i: usize = 0;
        while i < self.eaters.len()
            invariant
                i <= self.eaters@.len(),
                forall|k: int| 0 <= k <= self.eaters@.len() ==> fits_i32(
                    #[trigger] sum_mian(self.eaters@.subrange(0, k)),
                ),
                total == sum_mian(self.eaters@.subrange(0, i as int)),
            decreases self.eaters.len() - i,
        {
            proof {
                assert(self.eaters@.subrange(0, i as int + 1).drop_last() =~= self.eaters@.subrange(0, i as int));
                assert(fits_i32(sum_mian(self.eaters@.subrange(0, i as int + 1))));
            }
            total = total + self.eaters[i].mian;
            i += 1;
        }
        proof {
            assert(self.eaters@.subrange(0, i as int) =~= self.eaters@);
        }
        total
    }

    /// Rice portions of all eaters together.
    pub fn fan(&self) -> (r: i32)
        requires
            forall|k: int| 0 <= k <= self.eaters@.len() ==> fits_i32(
                #[trigger] sum_fan(self.eaters@.subrange(0, k)),
            ),
        ensures
            r == sum_fan(self.eaters@),
    {
        let mut total: i32 = 0;
        let mut i: usize = 0;
        while i < self.eaters.len()
            invariant
                i <= self.eaters@.len(),
                forall|k: int| 0 <= k <= self.eaters@.len() ==> fits_i32(
                    #[trigger] sum_fan(self.eaters@.subrange(0, k)),
                ),
                total == sum_fan(self.eaters@.subrange(0, i as int)),
            decreases self.eaters.len() - i,
        {
            proof {
                assert(self.eaters@.subrange(0, i as int + 1).drop_last() =~= self.eaters@.subrange(0, i as int));
                assert(fits_i32(sum_fan(self.eaters@.subrange(0, i as int + 1))));
            }
            total = total + self.eaters[i].fan;
            i += 1;
        }
        proof {
            assert(self.eaters@.subrange(0, i as int) =~= self.eaters@);
        }
        total
    }
}

impl EaterStats {
    /// Whose totals these are.
    pub fn name(&self) -> (r: &str)
        ensures
            r@ == self.name@,
    {
        self.name.as_str()
    }

    /// Noodle portions over all finished pots.
    pub fn mian(&self) -> (r: i32)
        ensures
            r == self.mian,
    {
        self.mian
    }

    /// Rice portions over all finished pots.
    pub fn fan(&self) -> (r: i32)
        ensures
            r == self.fan,
    {
        self.fan
    }

    /// Finished pots taken part in.
    pub fn eat_count(&self) -> (r: i32)
        ensures
            r == self.eat_count,
    {
        self.eat_count
    }

    /// Pots hosted.
    pub fn pot_count(&self) -> (r: i32)
        ensures
            r == self.pot_count,
    {
        self.pot_count
    }
}

/// Copies a list of eaters entry by entry.
fn clone_eaters(v: &Vec<Eater>) -> (r: Vec<Eater>)
    ensures
        r@ == v@,
{
    let mut r: Vec<Eater> = Vec::new();
    let mut i: usize = 0;
    while i < v.len()
        invariant
            i <= v.len(),
            r@ == v@.subrange(0, i as int),
        decreases v.len() - i,
    {
        r.push(v[i].clone());
        i += 1;
    }
    assert(r@ =~= v@);
    r
}

impl Clone for Pot {
    fn clone(&self) -> (r: Self)
        ensures
            r@ == self@,
    {
        let note = match &self.note {
            Some(n) => Some(n.clone()),
            None => None,
        };
        Pot {
            id: self.id,
            position: self.position.clone(),
            time: self.time.clone(),
            taste: self.taste.clone(),
            eaters: clone_eaters(&self.eaters),
            note,
        }
    }
}

/// A person's lifetime totals.
pub struct EaterStats {
    /// Whose totals these are.
    pub name: String,
    /// Noodle portions over all finished pots.
    pub mian: i32,
    /// Rice portions over all finished pots.
    pub fan: i32,
    /// Finished pots taken part in.
    pub eat_count: i32,
    /// Pots hosted.
    pub pot_count: i32,
}

impl Clone for EaterStats {
    fn clone(&self) -> (r: Self)
        ensures
            r@ == self@,
    {
        EaterStats {
            name: self.name.clone(),
            mian: self.mian,
            fan: self.fan,
            eat_count: self.eat_count,
            pot_count: self.pot_count,
        }
    }
}

/// The abstract value of a person's totals, over unbounded integers.
pub struct StatsView {
    pub name: Seq<char>,
    pub mian: int,
    pub fan: int,
    pub eat_count: int,
    pub pot_count: int,
}

impl View for EaterStats {
    type V = StatsView;

    open spec fn view(&self) -> StatsView {
        StatsView {
            name: self.name@,
            mian: self.mian as int,
            fan: self.fan as int,
            eat_count: self.eat_count as int,
            pot_count: self.pot_count as int,
        }
    }
}

/// Whether a value fits in an `i32`.
pub open spec fn fits_i32(x: int) -> bool {
    i32::MIN <= x <= i32::MAX
}

/// Whether every counter of a totals entry fits in an `i32`.
pub open spec fn stats_fit(v: StatsView) -> bool {
    fits_i32(v.mian) && fits_i32(v.fan) && fits_i32(v.eat_count) && fits_i32(v.pot_count)
}

/// The totals of someone not seen before.
pub open spec fn zero_stats(name: Seq<char>) -> StatsView {
    StatsView { name, mian: 0, fan: 0, eat_count: 0, pot_count: 0 }
}

/// The position of the first totals entry that carries `name`, if any.
pub open spec fn find_stats(stats: Seq<StatsView>, name: Seq<char>) -> Option<int>
    decreases stats.len(),
{
    if stats.len() == 0 {
        None
    } else {
        match find_stats(stats.drop_last(), name) {
            Some(i) => Some(i),
            None => if stats.last().name == name {
                Some(stats.len() - 1)
            } else {
                None
            },
        }
    }
}

/// The totals list once `name` has an entry: unchanged if it had one, else with a
/// zero entry appended.
pub open spec fn with_stats(stats: Seq<StatsView>, name: Seq<char>) -> Seq<StatsView> {
    if find_stats(stats, name).is_some() {
        stats
    } else {
        stats.push(zero_stats(name))
    }
}

/// The position of the entry for `name` in `with_stats(stats, name)`.
pub open spec fn stats_index(stats: Seq<StatsView>, name: Seq<char>) -> int {
    match find_stats(stats, name) {
        Some(i) => i,
        None => stats.len() as int,
    }
}

/// The totals of `name`: its entry, or zero totals if it has none.
pub open spec fn stats_of(stats: Seq<StatsView>, name: Seq<char>) -> StatsView {
    with_stats(stats, name)[stats_index(stats, name)]
}

/// Totals `v` once `e` has eaten in one more finished pot.
pub open spec fn bump(v: StatsView, e: Eater) -> StatsView {
    StatsView {
        mian: v.mian + e.mian,
        fan: v.fan + e.fan,
        eat_count: v.eat_count + 1,
        ..v
    }
}

/// The totals list after `e` has eaten in a finished pot.
pub open spec fn eat_step(stats: Seq<StatsView>, e: Eater) -> Seq<StatsView> {
    let s = with_stats(stats, e.name@);
    let i = stats_index(stats, e.name@);
    s.update(i, bump(s[i], e))
}

/// Whether the entry that `eat_step` changes still fits in `i32`s.
pub open spec fn eat_step_fits(stats: Seq<StatsView>, e: Eater) -> bool {
    stats_fit(eat_step(stats, e)[stats_index(stats, e.name@)])
}

/// The totals list after each of `eaters`, in order, has eaten.
pub open spec fn fold_eaters(stats: Seq<StatsView>, eaters: Seq<Eater>) -> Seq<StatsView>
    decreases eaters.len(),
{
    if eaters.len() == 0 {
        stats
    } else {
        eat_step(fold_eaters(stats, eaters.drop_last()), eaters.last())
    }
}

/// Whether every step of `fold_eaters(stats, eaters)` fits in `i32`s.
pub open spec fn fold_eaters_fits(stats: Seq<StatsView>, eaters: Seq<Eater>) -> bool
    decreases eaters.len(),
{
    if eaters.len() == 0 {
        true
    } else {
        fold_eaters_fits(stats, eaters.drop_last()) && eat_step_fits(
            fold_eaters(stats, eaters.drop_last()),
            eaters.last(),
        )
    }
}

/// The totals list after every pot of `pots`, in order, has been finished.
pub open spec fn fold_pots(stats: Seq<StatsView>, pots: Seq<PotView>) -> Seq<StatsView>
    decreases pots.len(),
{
    if pots.len() == 0 {
        stats
    } else {
        fold_eaters(fold_pots(stats, pots.drop_last()), pots.last().eaters)
    }
}

/// Whether every step of `fold_pots(stats, pots)` fits in `i32`s.
pub open spec fn fold_pots_fits(stats: Seq<StatsView>, pots: Seq<PotView>) -> bool
    decreases pots.len(),
{
    if pots.len() == 0 {
        true
    } else {
        fold_pots_fits(stats, pots.drop_last()) && fold_eaters_fits(
            fold_pots(stats, pots.drop_last()),
            pots.last().eaters,
        )
    }
}

/// The position of the first pot whose id is `id`, if any.
pub open spec fn find_pot(pots: Seq<PotView>, id: i32) -> Option<int>
    decreases pots.len(),
{
    if pots.len() == 0 {
        None
    } else {
        match find_pot(pots.drop_last(), id) {
            Some(i) => Some(i),
            None => if pots.last().id == id {
                Some(pots.len() - 1)
            } else {
                None
            },
        }
    }
}

/// Where a selector points: the pot with the given id if an id is given, else
/// the pot at the given zero-based position, else nowhere.
pub open spec fn resolve(pots: Seq<PotView>, id: Option<i32>, index: Option<i32>) -> Option<int> {
    match id {
        Some(want) => find_pot(pots, want),
        None => match index {
            Some(pos) => if 0 <= pos < pots.len() {
                Some(pos as int)
            } else {
                None
            },
            None => None,
        },
    }
}

/// Once a prefix holds an id, the whole list finds it at the same place.
proof fn lemma_find_pot_prefix(pots: Seq<PotView>, id: i32, k: int)
    requires
        0 <= k <= pots.len(),
        find_pot(pots.subrange(0, k), id).is_some(),
    ensures
        find_pot(pots, id) == find_pot(pots.subrange(0, k), id),
    decreases pots.len(),
{
    if k < pots.len() {
        assert(pots.drop_last().subrange(0, k) =~= pots.subrange(0, k));
        lemma_find_pot_prefix(pots.drop_last(), id, k);
    } else {
        assert(pots.subrange(0, k) =~= pots);
    }
}

/// Once a prefix holds a name, the whole list finds it at the same place.
proof fn lemma_find_stats_prefix(stats: Seq<StatsView>, name: Seq<char>, k: int)
    requires
        0 <= k <= stats.len(),
        find_stats(stats.subrange(0, k), name).is_some(),
    ensures
        find_stats(stats, name) == find_stats(stats.subrange(0, k), name),
    decreases stats.len(),
{
    if k < stats.len() {
        assert(stats.drop_last().subrange(0, k) =~= stats.subrange(0, k));
        lemma_find_stats_prefix(stats.drop_last(), name, k);
    } else {
        assert(stats.subrange(0, k) =~= stats);
    }
}

/// A found totals entry lies in the list and carries the name.
pub proof fn lemma_find_stats_found(stats: Seq<StatsView>, name: Seq<char>)
    ensures
        find_stats(stats, name) matches Some(i) ==> 0 <= i < stats.len() && stats[i].name == name
            && forall|j: int| 0 <= j < i ==> #[trigger] stats[j].name != name,
        find_stats(stats, name).is_none() ==> forall|j: int|
            0 <= j < stats.len() ==> #[trigger] stats[j].name != name,
    decreases stats.len(),
{
    if stats.len() > 0 {
        lemma_find_stats_found(stats.drop_last(), name);
        if let Some(i) = find_stats(stats, name) {
            assert forall|j: int| 0 <= j < i implies #[trigger] stats[j].name != name by {
                assert(stats.drop_last()[j] == stats[j]);
            }
        }
        if find_stats(stats, name).is_none() {
            assert forall|j: int| 0 <= j < stats.len() implies #[trigger] stats[j].name != name by {
                if j < stats.len() - 1 {
                    assert(stats.drop_last()[j] == stats[j]);
                }
            }
        }
    }
}

/// The entry that `with_stats` provides lies in its list and carries the name.
pub proof fn lemma_stats_index(stats: Seq<StatsView>, name: Seq<char>)
    ensures
        0 <= stats_index(stats, name) < with_stats(stats, name).len(),
        with_stats(stats, name)[stats_index(stats, name)].name == name,
        with_stats(stats, name).len() >= stats.len(),
        forall|j: int| 0 <= j < stats.len() ==> #[trigger] with_stats(stats, name)[j] == stats[j],
{
    lemma_find_stats_found(stats, name);
}

/// Two totals lists with the same names at the same places find a name at the
/// same place.
pub proof fn lemma_find_stats_same_names(s: Seq<StatsView>, t: Seq<StatsView>, name: Seq<char>)
    requires
        s.len() == t.len(),
        forall|j: int| 0 <= j < s.len() ==> #[trigger] s[j].name == t[j].name,
    ensures
        find_stats(s, name) == find_stats(t, name),
    decreases s.len(),
{
    if s.len() > 0 {
        assert forall|j: int| 0 <= j < s.len() - 1 implies #[trigger] s.drop_last()[j].name
            == t.drop_last()[j].name by {
            assert(s.drop_last()[j] == s[j] && t.drop_last()[j] == t[j]);
        }
        lemma_find_stats_same_names(s.drop_last(), t.drop_last(), name);
        assert(s.last().name == t.last().name) by {
            assert(s[s.len() - 1].name == t[t.len() - 1].name);
        }
    }
}

/// Appending an entry leaves earlier finds alone and finds the new one only
/// for its own name.
pub proof fn lemma_find_stats_push(s: Seq<StatsView>, z: StatsView, name: Seq<char>)
    ensures
        find_stats(s.push(z), name) == (match find_stats(s, name) {
            Some(i) => Some(i),
            None => if z.name == name {
                Some(s.len() as int)
            } else {
                None
            },
        }),
{
    assert(s.push(z).drop_last() =~= s);
}

/// How one eater's step changes the totals of any name: the eater's own are
/// bumped, every other name's stay as they were.
pub proof fn lemma_stats_of_step(stats: Seq<StatsView>, e: Eater, name: Seq<char>)
    ensures
        stats_of(eat_step(stats, e), name) == if name == e.name@ {
            bump(stats_of(stats, name), e)
        } else {
            stats_of(stats, name)
        },
{
    let en = e.name@;
    let w = with_stats(stats, en);
    let ie = stats_index(stats, en);
    let s2 = eat_step(stats, e);
    lemma_stats_index(stats, en);
    lemma_find_stats_found(stats, name);
    lemma_find_stats_found(stats, en);
    assert forall|j: int| 0 <= j < s2.len() implies #[trigger] s2[j].name == w[j].name by {}
    lemma_find_stats_same_names(s2, w, name);
    lemma_find_stats_push(stats, zero_stats(en), name);
    match find_stats(stats, name) {
        Some(k) => {
            assert(find_stats(w, name) == Some(k));
            assert(w[k] == stats[k]);
            if name == en {
                assert(ie == k);
            } else {
                assert(k != ie);
            }
        },
        None => {
            if name == en {
                assert(find_stats(w, name) == Some(stats.len() as int));
            } else {
                assert(find_stats(w, name).is_none());
            }
        },
    }
}

/// The abstract values of a list of pots.
pub open spec fn pots_view(s: Seq<Pot>) -> Seq<PotView> {
    s.map_values(|p: Pot| p@)
}

/// The abstract values of a list of totals.
pub open spec fn stats_view(s: Seq<EaterStats>) -> Seq<StatsView> {
    s.map_values(|e: EaterStats| e@)
}

/// Replacing one pot replaces its abstract value.
pub broadcast proof fn lemma_pots_view_update(s: Seq<Pot>, i: int, v: Pot)
    requires
        0 <= i < s.len(),
    ensures
        #[trigger] pots_view(s.update(i, v)) == pots_view(s).update(i, v@),
{
    assert(pots_view(s.update(i, v)) =~= pots_view(s).update(i, v@));
}

/// Replacing one totals entry replaces its abstract value.
pub broadcast proof fn lemma_stats_view_update(s: Seq<EaterStats>, i: int, v: EaterStats)
    requires
        0 <= i < s.len(),
    ensures
        #[trigger] stats_view(s.update(i, v)) == stats_view(s).update(i, v@),
{
    assert(stats_view(s.update(i, v)) =~= stats_view(s).update(i, v@));
}

/// Appending a totals entry appends its abstract value.
pub broadcast proof fn lemma_stats_view_push(s: Seq<EaterStats>, v: EaterStats)
    ensures
        #[trigger] stats_view(s.push(v)) == stats_view(s).push(v@),
{
    assert(stats_view(s.push(v)) =~= stats_view(s).push(v@));
}

/// Facts that relate the lists of a store to their abstract values.
pub broadcast group group_views {
    lemma_pots_view_update,
    lemma_stats_view_update,
    lemma_stats_view_push,
}

/// The whole state: the id counter, the open pots and everyone's totals.
pub struct Storage {
    pub(crate) counter: i32,
    /// Open pots.
    pub pots: Vec<Pot>,
    /// Totals, in order of first appearance.
    pub stats: Vec<EaterStats>,
}

/// The abstract state of a store.
pub struct StorageView {
    /// The last identifier handed out (zero before the first).
    pub counter: int,
    /// Open pots, in list order.
    pub pots: Seq<PotView>,
    /// Totals, in order of first appearance.
    pub stats: Seq<StatsView>,
}

impl View for Storage {
    type V = StorageView;

    open(crate) spec fn view(&self) -> StorageView {
        StorageView { counter: self.counter as int, pots: pots_view(self.pots@), stats: stats_view(self.stats@) }
    }
}

impl Default for Storage {
    fn default() -> (r: Storage)
        ensures
            r@.counter == 0,
            r@.pots == Seq::<PotView>::empty(),
            r@.stats == Seq::<StatsView>::empty(),
    {
        Storage::new()
    }
}

impl Storage {
    /// An empty store.
    pub fn new() -> (r: Storage)
        ensures
            r@.counter == 0,
            r@.pots == Seq::<PotView>::empty(),
            r@.stats == Seq::<StatsView>::empty(),
    {
        Storage { counter: 0, pots: Vec::new(), stats: Vec::new() }
    }

    /// A store rebuilt from its saved parts.
    pub fn from_parts(counter: i32, pots: Vec<Pot>, stats: Vec<EaterStats>) -> (r: Storage)
        ensures
            r@ == (StorageView {
                counter: counter as int,
                pots: pots_view(pots@),
                stats: stats_view(stats@),
            }),
    {
        Storage { counter, pots, stats }
    }

    /// The last identifier handed out, zero before the first.
    pub fn last_id(&self) -> (r: i32)
        ensures
            r == self@.counter,
    {
        self.counter
    }

    /// Hands out the next identifier.
    pub fn counter(&mut self) -> (r: i32)
        requires
            old(self)@.counter < i32::MAX,
        ensures
            r == old(self)@.counter + 1,
            final(self)@ == (StorageView { counter: r as int, ..old(self)@ }),
    {
        self.counter = self.counter + 1;
        self.counter
    }

    /// The position that a selector resolves to.
    pub(crate) fn locate(&self, id: Option<i32>, index: Option<i32>) -> (r: Option<usize>)
        ensures
            r.is_some() ==> r.unwrap() < self.pots@.len(),
            r.is_some() == resolve(self@.pots, id, index).is_some(),
            r.is_some() ==> r.unwrap() as int == resolve(self@.pots, id, index).unwrap(),
    {
        proof {
            assert(self@.pots.len() == self.pots@.len());
        }
        match id {
            Some(want) => {
                let ghost ps = self@.pots;
                let mut i: usize = 0;
                while i < self.pots.len()
                    invariant
                        i <= self.pots@.len(),
                        ps == self@.pots,
                        ps.len() == self.pots@.len(),
                        id == Some(want),
                        find_pot(ps.subrange(0, i as int), want).is_none(),
                    decreases self.pots.len() - i,
                {
                    proof {
                        assert(ps[i as int] == self.pots@[i as int]@);
                        assert(ps.subrange(0, i as int + 1).drop_last() =~= ps.subrange(0, i as int));
                    }
                    if self.pots[i].id == want {
                        proof {
                            lemma_find_pot_prefix(ps, want, i as int + 1);
                        }
                        return Some(i);
                    }
                    i += 1;
                }
                proof {
                    assert(ps.subrange(0, i as int) =~= ps);
                }
                None
            },
            None => match index {
                Some(index) => {
                    if 0 <= index && (index as usize) < self.pots.len() {
                        Some(index as usize)
                    } else {
                        None
                    }
                },
                None => None,
            },
        }
    }

    /// Finds a pot by id, else by zero-based position.
    pub fn pot(&self, id: Option<i32>, index: Option<i32>) -> (r: Option<&Pot>)
        ensures
            r.is_some() == resolve(self@.pots, id, index).is_some(),
            r.is_some() ==> r.unwrap()@ == self@.pots[resolve(self@.pots, id, index).unwrap()],
    {
        match self.locate(id, index) {
            Some(i) => Some(&self.pots[i]),
            None => None,
        }
    }

    /// Finds a pot by id, else by zero-based position, for changing it in place.
    pub fn pot_mut(&mut self, id: Option<i32>, index: Option<i32>) -> (r: Option<&mut Pot>)
        ensures
            match resolve(old(self)@.pots, id, index) {
                None => r.is_none() && final(self)@ == old(self)@,
                Some(i) => {
                    &&& 0 <= i < old(self)@.pots.len()
                    &&& r.is_some()
                    &&& r.unwrap()@ == old(self)@.pots[i]
                    &&& final(self)@ == (StorageView {
                        pots: old(self)@.pots.update(i, final(r.unwrap())@),
                        ..old(self)@
                    })
                },
            },
    {
        match self.locate(id, index) {
            Some(i) => {
                let ghost cur = self.pots@;
                let r = &mut self.pots[i];
                proof {
                    lemma_pots_view_update(cur, i as int, *final(r));
                }
                Some(r)
            },
            None => None,
        }
    }

    /// The totals entry of `name`, appended with zero totals if there is none.
    pub fn stats_mut(&mut self, name: &str) -> (r: &mut EaterStats)
        ensures
            r@ == with_stats(old(self)@.stats, name@)[stats_index(old(self)@.stats, name@)],
            final(self)@ == (StorageView {
                stats: with_stats(old(self)@.stats, name@).update(
                    stats_index(old(self)@.stats, name@),
                    final(r)@,
                ),
                ..old(self)@
            }),
    {
        let ghost st = old(self)@.stats;
        let ghost nm = name@;
        let owned = name.to_owned();
        let mut i: usize = 0;
        let mut found = false;
        while i < self.stats.len()
            invariant_except_break
                find_stats(st.subrange(0, i as int), nm).is_none(),
                !found,
            invariant
                i <= self.stats@.len(),
                self@ == old(self)@,
                self@.stats == st,
                st.len() == self.stats@.len(),
                owned@ == nm,
            ensures
                i <= st.len(),
                self@ == old(self)@,
                self@.stats == st,
                st.len() == self.stats@.len(),
                owned@ == nm,
                found ==> i < st.len() && find_stats(st, nm) == Some(i as int),
                !found ==> i == st.len() && find_stats(st.subrange(0, i as int), nm).is_none(),
            decreases self.stats.len() - i,
        {
            proof {
                assert(st[i as int] == self.stats@[i as int]@);
                assert(st.subrange(0, i as int + 1).drop_last() =~= st.subrange(0, i as int));
            }
            if self.stats[i].name == owned {
                proof {
                    lemma_find_stats_prefix(st, nm, i as int + 1);
                }
                found = true;
                break;
            }
            i += 1;
        }
        if !found {
            proof {
                assert(st.subrange(0, i as int) =~= st);
            }
            self.stats.push(EaterStats { name: owned, mian: 0, fan: 0, eat_count: 0, pot_count: 0 });
            i = self.stats.len() - 1;
        }
        proof {
            assert(self@.stats =~= with_stats(st, nm));
            assert(stats_index(st, nm) == i as int);
        }
        let ghost cur = self.stats@;
        let r = &mut self.stats[i];
        proof {
            lemma_stats_view_update(cur, i as int, *final(r));
        }
        r
    }
}

} // verus!
