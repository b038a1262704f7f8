//! The dice table as a whole: dice by name, read from the table's text.
use vstd::prelude::*;

use crate::chrono::dice::{
    row_fits_check, lemma_faces_total_bounds, row_error_is, row_fits, spec_parse_row, DiceRollTableItem, ItemView,
    RowError,
};
use crate::chrono::tally::{lemma_fits_between, lemma_scale_step, DiceRollResult, Tally, WideTally};
use crate::chrono::error::RollError;
use crate::text::{chars_of, line_ranges, lines, ranges_hold};

verus! {

/// The dice of `s` by name; a later die replaces an earlier one of the same
/// name.
pub open spec fn to_map(s: Seq<ItemView>) -> Map<Seq<char>, ItemView>
    decreases s.len(),
{
    if s.len() == 0 {
        Map::empty()
    } else {
        to_map(s.drop_last()).insert(s.last().name, s.last())
    }
}

/// No two dice of `s` share a name.
pub open spec fn names_distinct(s: Seq<ItemView>) -> bool {
    forall|i: int, j: int| 0 <= i < j < s.len() ==> s[i].name != s[j].name
}

/// The names of `to_map(s)` are exactly those of the dice in `s`.
pub proof fn lemma_to_map_dom(s: Seq<ItemView>)
    ensures
        forall|i: int| 0 <= i < s.len() ==> to_map(s).contains_key(#[trigger] s[i].name),
        forall|k: Seq<char>|
            #[trigger] to_map(s).contains_key(k) ==> exists|i: int| 0 <= i < s.len() && s[i].name == k,
    decreases s.len(),
{
    if s.len() > 0 {
        let d = s.drop_last();
        lemma_to_map_dom(d);
        assert forall|i: int| 0 <= i < s.len() implies to_map(s).contains_key(#[trigger] s[i].name) by {
            if i < s.len() - 1 {
                assert(s[i] == d[i]);
            }
        }
        assert forall|k: Seq<char>| #[trigger] to_map(s).contains_key(k) implies exists|i: int|
            0 <= i < s.len() && s[i].name == k by {
            if k != s.last().name {
                assert(to_map(d).contains_key(k));
                let i = choose|i: int| 0 <= i < d.len() && d[i].name == k;
                assert(s[i] == d[i]);
                assert(0 <= i < s.len() && s[i].name == k);
            } else {
                assert(s[s.len() - 1].name == k);
            }
        }
    }
}

/// With distinct names, each die is what `to_map` holds under its name.
pub proof fn lemma_to_map_at(s: Seq<ItemView>, i: int)
    requires
        names_distinct(s),
        0 <= i < s.len(),
    ensures
        to_map(s).contains_key(s[i].name),
        to_map(s)[s[i].name] == s[i],
    decreases s.len(),
{
    let d = s.drop_last();
    if i < s.len() - 1 {
        assert(s[i] == d[i]);
        assert(names_distinct(d));
        lemma_to_map_at(d, i);
    }
}

/// Replacing a die by one of the same name replaces it in the map.
pub proof fn lemma_to_map_update(s: Seq<ItemView>, i: int, x: ItemView)
    requires
        names_distinct(s),
        0 <= i < s.len(),
        x.name == s[i].name,
    ensures
        to_map(s.update(i, x)) == to_map(s).insert(x.name, x),
    decreases s.len(),
{
    let d = s.drop_last();
    let u = s.update(i, x);
    if i == s.len() - 1 {
        assert(u.drop_last() =~= d);
        assert(to_map(u) =~= to_map(s).insert(x.name, x));
    } else {
        assert(u.drop_last() =~= d.update(i, x));
        assert(names_distinct(d));
        lemma_to_map_update(d, i, x);
        assert(s.last().name != x.name);
        assert(to_map(u) =~= to_map(s).insert(x.name, x));
    }
}

/// After adding a die, looking up its name gives that die, and looking up
/// any other name gives what it gave before.
pub proof fn lemma_insert_then_get(m: Map<Seq<char>, ItemView>, item: ItemView, other: Seq<char>)
    ensures
        m.insert(item.name, item).contains_key(item.name),
        m.insert(item.name, item)[item.name] == item,
        other != item.name ==> (m.insert(item.name, item).contains_key(other) == m.contains_key(other)),
        other != item.name && m.contains_key(other) ==> m.insert(item.name, item)[other] == m[other],
{
}

/// All the dice of the game, by name.
pub struct DiceTable {
    items: Vec<DiceRollTableItem>,
}

impl DiceTable {
    /// The dice in the order they are kept.
    pub closed spec fn entries(self) -> Seq<ItemView> {
        self.items@.map_values(|i: DiceRollTableItem| i@)
    }

    #[verifier::type_invariant]
    closed spec fn inv(self) -> bool {
        &&& names_distinct(self.entries())
        &&& forall|i: int| 0 <= i < self.entries().len() ==> (#[trigger] self.entries()[i]).has_sides()
    }
}

impl View for DiceTable {
    type V = Map<Seq<char>, ItemView>;

    closed spec fn view(&self) -> Map<Seq<char>, ItemView> {
        to_map(self.entries())
    }
}

impl DiceTable {
    /// A table with no dice.
    pub fn new() -> (t: DiceTable)
        ensures
            t@ == Map::<Seq<char>, ItemView>::empty(),
    {
        let t = DiceTable { items: Vec::new() };
        assert(t.entries() =~= Seq::<ItemView>::empty());
        t
    }

    /// Where the die named `name` is kept, if there is one.
    fn position(&self, name: &String) -> (r: Option<usize>)
        ensures
            r matches Some(i) ==> i < self.items.len() && self.items@[i as int].name@ == name@,
            r is None ==> forall|i: int| 0 <= i < self.items.len() ==> self.items@[i].name@ != name@,
    {
        let mut i: usize = 0;
        while i < self.items.len()
            invariant
                i <= self.items.len(),
                forall|j: int| 0 <= j < i ==> self.items@[j].name@ != name@,
            decreases self.items.len() - i,
        {
            if self.items[i].name == *name {
                return Some(i);
            }
            i = i + 1;
        }
        None
    }

    /// Whether a die of that name is in the table.
    pub fn contains_key(&self, name: &String) -> (r: bool)
        ensures
            r == self@.contains_key(name@),
    {
        proof {
            lemma_to_map_dom(self.entries());
        }
        match self.position(name) {
            Some(i) => {
                assert(self.entries()[i as int].name == name@);
                true
            },
            None => {
                proof {
                    if self@.contains_key(name@) {
                        let j = choose|j: int| 0 <= j < self.entries().len() && self.entries()[j].name == name@;
                        assert(self.items@[j].name@ == name@);
                    }
                }
                false
            },
        }
    }

    /// The die named `name`, if there is one.
    pub fn get(&self, name: &String) -> (r: Option<&DiceRollTableItem>)
        ensures
            match r {
                Some(item) => self@.contains_key(name@) && item@ == self@[name@] && item@.has_sides(),
                None => !self@.contains_key(name@),
            },
    {
        proof {
            use_type_invariant(self);
            lemma_to_map_dom(self.entries());
        }
        match self.position(name) {
            Some(i) => {
                proof {
                    lemma_to_map_at(self.entries(), i as int);
                    assert(self.entries()[i as int].has_sides());
                }
                Some(&self.items[i])
            },
            None => {
                proof {
                    if self@.contains_key(name@) {
                        let j = choose|j: int| 0 <= j < self.entries().len() && self.entries()[j].name == name@;
                        assert(self.items@[j].name@ == name@);
                    }
                }
                None
            },
        }
    }

    /// Adds a die, replacing the one of the same name if there is one.
    pub fn insert(&mut self, item: DiceRollTableItem)
        requires
            item@.has_sides(),
        ensures
            final(self)@ == old(self)@.insert(item.name@, item@),
    {
        proof {
            use_type_invariant(&*self);
        }
        let ghost old_entries = self.entries();
        let pos = self.position(&item.name);
        let mut items: Vec<DiceRollTableItem> = Vec::new();
        std::mem::swap(&mut items, &mut self.items);
        let ghost iv = item@;
        match pos {
            Some(i) => {
                items.set(i, item);
                proof {
                    let ne = items@.map_values(|x: DiceRollTableItem| x@);
                    assert(ne =~= old_entries.update(i as int, iv));
                    assert(names_distinct(ne)) by {
                        assert forall|a: int, b: int| 0 <= a < b < ne.len() implies ne[a].name != ne[b].name by {
                            assert(ne[a].name == old_entries[a].name);
                            assert(ne[b].name == old_entries[b].name);
                        }
                    }
                    lemma_to_map_update(old_entries, i as int, iv);
                    assert forall|k: int| 0 <= k < ne.len() implies (#[trigger] ne[k]).has_sides() by {
                        if k != i {
                            assert(ne[k] == old_entries[k]);
                        }
                    }
                }
            },
            None => {
                items.push(item);
                proof {
                    let ne = items@.map_values(|x: DiceRollTableItem| x@);
                    assert(ne =~= old_entries.push(iv));
                    assert(names_distinct(ne)) by {
                        assert forall|a: int, b: int| 0 <= a < b < ne.len() implies ne[a].name != ne[b].name by {
                            if b == ne.len() - 1 {
                                assert(ne[a] == old_entries[a]);
                                assert(old_entries[a].name == items@[a].name@);
                            }
                        }
                    }
                    assert forall|k: int| 0 <= k < ne.len() implies (#[trigger] ne[k]).has_sides() by {
                        if k < old_entries.len() {
                            assert(ne[k] == old_entries[k]);
                        }
                    }
                }
                assert(items@.map_values(|x: DiceRollTableItem| x@).drop_last() =~= old_entries);
            },
        }
        self.items = items;
    }
}


/// The rows of the table's text: each line but the first, which is the
/// header.
pub open spec fn data_rows(raw: Seq<char>) -> Seq<Seq<char>> {
    let l = lines(raw);
    if l.len() == 0 {
        l
    } else {
        l.skip(1)
    }
}

/// The table that `rows` read as, row by row, or the position and reason of
/// the first row that is refused.
pub open spec fn spec_table(rows: Seq<Seq<char>>) -> Result<Map<Seq<char>, ItemView>, (int, RowError)>
    decreases rows.len(),
{
    if rows.len() == 0 {
        Ok(Map::empty())
    } else {
        match spec_table(rows.drop_last()) {
            Err(e) => Err(e),
            Ok(m) => match spec_parse_row(rows.last()) {
                Ok(v) => Ok(m.insert(v.name, v)),
                Err(k) => Err((rows.len() - 1, k)),
            },
        }
    }
}

/// Each row that is reached (all rows before it were read) totals its faces
/// within range.
pub open spec fn table_fits(rows: Seq<Seq<char>>) -> bool {
    forall|i: int| 0 <= i < rows.len() && spec_table(rows.take(i)) is Ok ==> row_fits(#[trigger] rows[i])
}

/// Once a prefix of the rows fails, all of them fail at the same row.
proof fn lemma_table_error_extends(rows: Seq<Seq<char>>, k: int)
    requires
        0 <= k <= rows.len(),
        spec_table(rows.take(k)) is Err,
    ensures
        spec_table(rows) == spec_table(rows.take(k)),
    decreases rows.len() - k,
{
    if k < rows.len() {
        assert(rows.take(k + 1).drop_last() =~= rows.take(k));
        lemma_table_error_extends(rows, k + 1);
    } else {
        assert(rows.take(k) =~= rows);
    }
}

/// Whether each row that reading the table reaches totals its faces within
/// range (see [`table_fits`]).
pub fn table_fits_check(raw: &str) -> (b: bool)
    ensures
        b == table_fits(data_rows(raw@)),
{
    let chars = chars_of(raw);
    let ls = line_ranges(&chars);
    let ghost rows = data_rows(raw@);
    if ls.len() == 0 {
        return true;
    }
    let mut i: usize = 1;
    while i < ls.len()
        invariant
            1 <= i <= ls.len(),
            chars@ == raw@,
            ranges_hold(chars@, ls@, lines(raw@)),
            rows == lines(raw@).skip(1),
            spec_table(rows.take(i - 1)) is Ok,
            forall|j: int| 0 <= j < i - 1 ==> row_fits(#[trigger] rows[j]),
        decreases ls.len() - i,
    {
        let (a, b) = ls[i];
        assert(ls@[i as int] == (a, b));
        assert(chars@.subrange(a as int, b as int) == rows[i - 1]);
        assert(rows.take(i as int).drop_last() =~= rows.take(i - 1));
        assert(rows.take(i as int).last() == rows[i - 1]);
        if !row_fits_check(&chars, a, b) {
            return false;
        }
        if DiceRollTableItem::from_chars(&chars, a, b).is_err() {
            proof {
                assert forall|j: int| 0 <= j < rows.len() && spec_table(rows.take(j)) is Ok implies row_fits(#[trigger] rows[j]) by {
                    if j >= i {
                        lemma_table_error_extends(rows.take(j), i as int);
                        assert(rows.take(j).take(i as int) =~= rows.take(i as int));
                    }
                }
            }
            return true;
        }
        i = i + 1;
    }
    true
}

/// Reads the dice table from its text: a header line, then one die per
/// line. A die whose name comes again is replaced by the later one.
pub fn parse_dice_table(raw: &str) -> (r: Result<DiceTable, RollError>)
    requires
        table_fits(data_rows(raw@)),
    ensures
        match spec_table(data_rows(raw@)) {
            Ok(m) => r matches Ok(t) && t@ == m,
            Err((i, k)) => r matches Err(e) && row_error_is(e, k, data_rows(raw@)[i]),
        },
{
    let chars = chars_of(raw);
    let ls = line_ranges(&chars);
    let ghost rows = data_rows(raw@);
    let mut table = DiceTable::new();
    if ls.len() == 0 {
        return Ok(table);
    }
    let mut i: usize = 1;
    while i < ls.len()
        invariant
            1 <= i <= ls.len(),
            chars@ == raw@,
            ranges_hold(chars@, ls@, lines(raw@)),
            rows == lines(raw@).skip(1),
            table_fits(rows),
            spec_table(rows.take(i - 1)) == Ok::<Map<Seq<char>, ItemView>, (int, RowError)>(table@),
        decreases ls.len() - i,
    {
        let (a, b) = ls[i];
        assert(ls@[i as int] == (a, b));
        assert(chars@.subrange(a as int, b as int) == rows[i - 1]);
        assert(rows.take(i as int).drop_last() =~= rows.take(i - 1));
        assert(rows.take(i as int).last() == rows[i - 1]);
        match DiceRollTableItem::from_chars(&chars, a, b) {
            Ok(item) => {
                proof {
                    crate::chrono::dice::lemma_row_faces_match_sides(rows[i - 1]);
                }
                table.insert(item);
            },
            Err(e) => {
                proof {
                    lemma_table_error_extends(rows, i as int);
                }
                return Err(e);
            },
        }
        i = i + 1;
    }
    assert(rows.take(i - 1) =~= rows);
    Ok(table)
}


/// The die that entry `i` of a pool names.
pub open spec fn die_of(t: Map<Seq<char>, ItemView>, pool: Seq<(String, u8)>, i: int) -> ItemView {
    t[pool[i].0@]
}

/// Every die that the pool names is in the table.
pub open spec fn pool_known(t: Map<Seq<char>, ItemView>, pool: Seq<(String, u8)>) -> bool {
    forall|i: int| 0 <= i < pool.len() ==> t.contains_key(#[trigger] pool[i].0@)
}

/// The largest total that the first `k` entries of the pool can roll.
pub open spec fn pool_hi(t: Map<Seq<char>, ItemView>, pool: Seq<(String, u8)>, k: int) -> Tally
    decreases k,
{
    if k <= 0 {
        Tally::zero()
    } else {
        pool_hi(t, pool, k - 1).plus(die_of(t, pool, k - 1).hi().scale(pool[k - 1].1 as int))
    }
}

/// The smallest total that the first `k` entries of the pool can roll.
pub open spec fn pool_lo(t: Map<Seq<char>, ItemView>, pool: Seq<(String, u8)>, k: int) -> Tally
    decreases k,
{
    if k <= 0 {
        Tally::zero()
    } else {
        pool_lo(t, pool, k - 1).plus(die_of(t, pool, k - 1).lo().scale(pool[k - 1].1 as int))
    }
}

/// Rolling the pool cannot fail, whatever faces come up: each die is in the
/// table, each die's own roll stays in range, and so does the running total
/// after each entry.
pub open spec fn pool_fits(t: Map<Seq<char>, ItemView>, pool: Seq<(String, u8)>) -> bool {
    &&& pool_known(t, pool)
    &&& forall|i: int|
        0 <= i < pool.len() ==> #[trigger] die_of(t, pool, i).roll_fits(pool[i].1 as int)
    &&& forall|k: int| 0 <= k <= pool.len() ==> #[trigger] pool_hi(t, pool, k).fits()
    &&& forall|k: int| 0 <= k <= pool.len() ==> #[trigger] pool_lo(t, pool, k).fits()
}

/// `ch[i]` lists the faces that entry `i` of the pool landed on.
pub open spec fn choices_valid(
    t: Map<Seq<char>, ItemView>,
    pool: Seq<(String, u8)>,
    ch: Seq<Seq<u8>>,
) -> bool {
    &&& ch.len() == pool.len()
    &&& forall|i: int|
        0 <= i < pool.len() ==> #[trigger] ch[i].len() == pool[i].1 && die_of(
            t,
            pool,
            i,
        ).faces_valid(ch[i])
}

/// The total of the faces that the first `k` entries landed on.
pub open spec fn pool_total(
    t: Map<Seq<char>, ItemView>,
    pool: Seq<(String, u8)>,
    ch: Seq<Seq<u8>>,
    k: int,
) -> Tally
    decreases k,
{
    if k <= 0 {
        Tally::zero()
    } else {
        pool_total(t, pool, ch, k - 1).plus(die_of(t, pool, k - 1).faces_total(ch[k - 1]))
    }
}

proof fn lemma_pool_total_prefix(
    t: Map<Seq<char>, ItemView>,
    pool: Seq<(String, u8)>,
    a: Seq<Seq<u8>>,
    b: Seq<Seq<u8>>,
    k: int,
)
    requires
        0 <= k <= a.len(),
        k <= b.len(),
        forall|j: int| 0 <= j < k ==> a[j] == b[j],
    ensures
        pool_total(t, pool, a, k) == pool_total(t, pool, b, k),
    decreases k,
{
    if k > 0 {
        lemma_pool_total_prefix(t, pool, a, b, k - 1);
        assert(a[k - 1] == b[k - 1]);
    }
}

/// Rolls a pool that cannot overflow (see [`pool_fits`]): each die as many
/// times as the pool says, totalling all the faces landed on.
pub fn roll_fitting_pool(table: &DiceTable, pool: &Vec<(String, u8)>) -> (r: DiceRollResult)
    requires
        pool_fits(table@, pool@),
    ensures
        exists|ch: Seq<Seq<u8>>|
            choices_valid(table@, pool@, ch) && r@ == pool_total(table@, pool@, ch, pool@.len() as int),
{
    let mut result = DiceRollResult::default();
    let ghost mut ch: Seq<Seq<u8>> = Seq::empty();
    let mut i: usize = 0;
    while i < pool.len()
        invariant
            i <= pool.len(),
            pool_fits(table@, pool@),
            ch.len() == i,
            forall|j: int|
                0 <= j < i ==> #[trigger] ch[j].len() == pool@[j].1 && die_of(
                    table@,
                    pool@,
                    j,
                ).faces_valid(ch[j]),
            result@ == pool_total(table@, pool@, ch, i as int),
            pool_lo(table@, pool@, i as int).le(result@),
            result@.le(pool_hi(table@, pool@, i as int)),
        decreases pool.len() - i,
    {
        let entry = &pool[i];
        assert(table@.contains_key(pool@[i as int].0@));
        let item = match table.get(&entry.0) {
            Some(item) => item,
            None => {
                assert(false);
                return result;
            },
        };
        let ghost iv = item@;
        assert(iv == die_of(table@, pool@, i as int));
        assert(iv.roll_fits(entry.1 as int));
        let rolled = item.roll(entry.1);
        let ghost f = choose|f: Seq<u8>|
            {
                &&& f.len() == entry.1
                &&& iv.faces_valid(f)
                &&& rolled@ == iv.faces_total(f)
            };
        proof {
            if entry.1 == 0 {
                lemma_scale_step(iv.lo(), 0);
                lemma_scale_step(iv.hi(), 0);
                assert(f.len() == 0);
            } else {
                lemma_faces_total_bounds(iv, f);
            }
            assert(pool_fits(table@, pool@));
            assert(pool_hi(table@, pool@, i + 1).fits() && pool_lo(table@, pool@, i + 1).fits());
            lemma_fits_between(
                pool_lo(table@, pool@, i + 1),
                result@.plus(rolled@),
                pool_hi(table@, pool@, i + 1),
            );
        }
        result.add_result(&rolled);
        proof {
            let old_ch = ch;
            ch = ch.push(f);
            lemma_pool_total_prefix(table@, pool@, old_ch, ch, i as int);
        }
        i = i + 1;
    }
    assert(choices_valid(table@, pool@, ch));
    result
}


/// Whether rolling the pool cannot fail, whatever faces come up.
pub fn pool_fits_check(table: &DiceTable, pool: &Vec<(String, u8)>) -> (b: bool)
    ensures
        b == pool_fits(table@, pool@),
{
    let mut hi = WideTally::zero();
    let mut lo = WideTally::zero();
    let mut i: usize = 0;
    while i < pool.len()
        invariant
            i <= pool.len(),
            hi@ == pool_hi(table@, pool@, i as int),
            lo@ == pool_lo(table@, pool@, i as int),
            forall|j: int| 0 <= j < i ==> table@.contains_key(#[trigger] pool@[j].0@),
            forall|j: int|
                0 <= j < i ==> #[trigger] die_of(table@, pool@, j).roll_fits(pool@[j].1 as int),
            forall|k: int| 0 <= k <= i ==> #[trigger] pool_hi(table@, pool@, k).fits(),
            forall|k: int| 0 <= k <= i ==> #[trigger] pool_lo(table@, pool@, k).fits(),
        decreases pool.len() - i,
    {
        let entry = &pool[i];
        let item = match table.get(&entry.0) {
            Some(item) => item,
            None => {
                return false;
            },
        };
        let ghost iv = item@;
        assert(iv == die_of(table@, pool@, i as int));
        let n = entry.1;
        if n > 0 {
            if !(0 < item.die_sides && (item.die_sides as usize) <= item.outcomes.len()) {
                assert(!iv.roll_fits(n as int));
                return false;
            }
            let (h, l) = item.bounds();
            let sh = WideTally::scaled(&h, n);
            let sl = WideTally::scaled(&l, n);
            if !sh.fits() || !sl.fits() {
                assert(!iv.roll_fits(n as int));
                return false;
            }
            assert(pool_hi(table@, pool@, i as int).fits() && pool_lo(table@, pool@, i as int).fits());
            let nh = hi.plus(&sh);
            let nl = lo.plus(&sl);
            assert(nh@ == pool_hi(table@, pool@, i + 1));
            assert(nl@ == pool_lo(table@, pool@, i + 1));
            if !nh.fits() || !nl.fits() {
                assert(!(pool_hi(table@, pool@, i + 1).fits() && pool_lo(table@, pool@, i + 1).fits()));
                return false;
            }
            hi = nh;
            lo = nl;
        } else {
            proof {
                lemma_scale_step(iv.hi(), 0);
                lemma_scale_step(iv.lo(), 0);
                assert(pool_hi(table@, pool@, i + 1) =~= pool_hi(table@, pool@, i as int));
                assert(pool_lo(table@, pool@, i + 1) =~= pool_lo(table@, pool@, i as int));
            }
        }
        i = i + 1;
    }
    true
}

/// `name` is the name of the first die of the pool that the table does not
/// hold.
pub open spec fn first_unknown(t: Map<Seq<char>, ItemView>, pool: Seq<(String, u8)>, name: String) -> bool {
    exists|i: int|
        0 <= i < pool.len() && name == #[trigger] pool[i].0 && !t.contains_key(name@) && forall|j: int|
            0 <= j < i ==> t.contains_key(#[trigger] pool[j].0@)
}

/// The name of the first die of the pool that the table does not hold, or
/// nothing when it holds them all.
pub fn first_unknown_die(table: &DiceTable, pool: &Vec<(String, u8)>) -> (r: Option<String>)
    ensures
        match r {
            Some(name) => first_unknown(table@, pool@, name),
            None => pool_known(table@, pool@),
        },
{
    let mut i: usize = 0;
    while i < pool.len()
        invariant
            i <= pool.len(),
            forall|j: int| 0 <= j < i ==> table@.contains_key(#[trigger] pool@[j].0@),
        decreases pool.len() - i,
    {
        if !table.contains_key(&pool[i].0) {
            let name = pool[i].0.clone();
            assert(name == pool@[i as int].0);
            return Some(name);
        }
        i = i + 1;
    }
    None
}

/// Rolls the pool when rolling it cannot fail (see [`pool_fits`]); gives
/// nothing otherwise.
pub fn try_roll_dice(table: &DiceTable, pool: &Vec<(String, u8)>) -> (r: Option<DiceRollResult>)
    ensures
        r is None <==> !pool_fits(table@, pool@),
        r matches Some(x) ==> exists|ch: Seq<Seq<u8>>|
            choices_valid(table@, pool@, ch) && x@ == pool_total(table@, pool@, ch, pool@.len() as int),
{
    if pool_fits_check(table, pool) {
        Some(roll_fitting_pool(table, pool))
    } else {
        None
    }
}

/// The faces of each entry's draws.
pub open spec fn faces_of(draws: Seq<Vec<u8>>) -> Seq<Seq<u8>> {
    draws.map_values(|v: Vec<u8>| v@)
}

/// Every partial total met while totalling the draws `ch` stays within the
/// range of a roll result: each die's own total, face by face from zero,
/// and the pool's running total after each entry.
pub open spec fn draws_fit(t: Map<Seq<char>, ItemView>, pool: Seq<(String, u8)>, ch: Seq<Seq<u8>>) -> bool {
    &&& forall|k: int, j: int|
        0 <= k < pool.len() && 0 <= j <= ch[k].len() ==> #[trigger] die_of(t, pool, k).faces_total(
            ch[k].take(j),
        ).fits()
    &&& forall|k: int| 0 <= k <= pool.len() ==> #[trigger] pool_total(t, pool, ch, k).fits()
}

/// Totals the faces that each entry of the pool landed on: each die's
/// faces from zero, left to right, then each die's total onto the pool's;
/// nothing when a partial total leaves the range of a roll result.
pub fn total_draws(table: &DiceTable, pool: &Vec<(String, u8)>, draws: &Vec<Vec<u8>>) -> (r: Option<DiceRollResult>)
    requires
        pool_known(table@, pool@),
        choices_valid(table@, pool@, faces_of(draws@)),
    ensures
        match r {
            Some(x) => draws_fit(table@, pool@, faces_of(draws@)) && x@ == pool_total(
                table@,
                pool@,
                faces_of(draws@),
                pool@.len() as int,
            ),
            None => !draws_fit(table@, pool@, faces_of(draws@)),
        },
{
    let ghost ch = faces_of(draws@);
    let mut total = DiceRollResult::default();
    let mut i: usize = 0;
    while i < pool.len()
        invariant
            i <= pool.len() == draws.len() == ch.len(),
            ch == faces_of(draws@),
            pool_known(table@, pool@),
            choices_valid(table@, pool@, ch),
            total@ == pool_total(table@, pool@, ch, i as int),
            forall|k: int, j: int|
                0 <= k < i && 0 <= j <= ch[k].len() ==> #[trigger] die_of(table@, pool@, k).faces_total(
                    ch[k].take(j),
                ).fits(),
            forall|k: int| 0 <= k <= i ==> #[trigger] pool_total(table@, pool@, ch, k).fits(),
        decreases pool.len() - i,
    {
        assert(table@.contains_key(pool@[i as int].0@));
        let item = match table.get(&pool[i].0) {
            Some(item) => item,
            None => {
                assert(false);
                return None;
            },
        };
        let ghost iv = item@;
        assert(iv == die_of(table@, pool@, i as int));
        let faces = &draws[i];
        assert(faces@ == ch[i as int]);
        assert(iv.faces_valid(ch[i as int]));
        let mut die = DiceRollResult::default();
        let mut j: usize = 0;
        assert(faces@.take(0) =~= Seq::<u8>::empty());
        while j < faces.len()
            invariant
                j <= faces.len(),
                i < ch.len() == pool.len(),
                ch == faces_of(draws@),
                faces@ == ch[i as int],
                iv == item@,
                iv == die_of(table@, pool@, i as int),
                iv.faces_valid(faces@),
                die@ == iv.faces_total(faces@.take(j as int)),
                forall|jj: int| 0 <= jj <= j ==> #[trigger] iv.faces_total(faces@.take(jj)).fits(),
            decreases faces.len() - j,
        {
            let f = faces[j];
            assert(faces@.take(j + 1).drop_last() =~= faces@.take(j as int));
            assert(faces@.take(j + 1).last() == f);
            assert(f < item.outcomes.len());
            assert(iv.outcomes[f as int] == item.outcomes@[f as int]@);
            match die.checked_plus(&item.outcomes[f as usize]) {
                Some(x) => {
                    die = x;
                },
                None => {
                    assert(!iv.faces_total(faces@.take(j + 1)).fits());
                    assert(!die_of(table@, pool@, i as int).faces_total(ch[i as int].take(j + 1)).fits());
                    assert(!draws_fit(table@, pool@, ch));
                    return None;
                },
            }
            j = j + 1;
        }
        assert(faces@.take(j as int) =~= faces@);
        assert(die@ == iv.faces_total(ch[i as int]));
        assert forall|k: int, jj: int|
            0 <= k < i + 1 && 0 <= jj <= ch[k].len() implies #[trigger] die_of(table@, pool@, k).faces_total(
            ch[k].take(jj),
        ).fits() by {
            if k == i {
                assert(iv.faces_total(faces@.take(jj)).fits());
            }
        }
        match total.checked_plus(&die) {
            Some(x) => {
                total = x;
            },
            None => {
                assert(!pool_total(table@, pool@, ch, i + 1).fits());
                return None;
            },
        }
        i = i + 1;
    }
    Some(total)
}

/// Why a pool was not rolled.
#[derive(Debug, Clone, PartialEq, Eq)]
pub enum PoolRollError {
    /// The table holds no die of this name: the first such of the pool.
    UnknownDie(String),
    /// Every die is known, but the faces landed on took a total past the
    /// range of a roll result (see [`draws_fit`]).
    Overflow,
}

/// Rolls each die of the pool as many times as the pool says, and totals
/// the faces landed on; fails naming the first die that the table does not
/// hold, or when the faces landed on overflow a total.
pub fn roll_dice(table: &DiceTable, pool: &Vec<(String, u8)>) -> (r: Result<DiceRollResult, PoolRollError>)
    ensures
        match r {
            Err(PoolRollError::UnknownDie(name)) => first_unknown(table@, pool@, name),
            Err(PoolRollError::Overflow) => pool_known(table@, pool@) && exists|ch: Seq<Seq<u8>>|
                choices_valid(table@, pool@, ch) && !draws_fit(table@, pool@, ch),
            Ok(x) => pool_known(table@, pool@) && exists|ch: Seq<Seq<u8>>|
                {
                    &&& choices_valid(table@, pool@, ch)
                    &&& draws_fit(table@, pool@, ch)
                    &&& x@ == pool_total(table@, pool@, ch, pool@.len() as int)
                },
        },
        r matches Err(PoolRollError::UnknownDie(_)) <==> !pool_known(table@, pool@),
{
    if let Some(name) = first_unknown_die(table, pool) {
        return Err(PoolRollError::UnknownDie(name));
    }
    let mut draws: Vec<Vec<u8>> = Vec::new();
    let mut i: usize = 0;
    while i < pool.len()
        invariant
            i <= pool.len(),
            draws.len() == i,
            pool_known(table@, pool@),
            forall|k: int|
                0 <= k < i ==> #[trigger] faces_of(draws@)[k].len() == pool@[k].1 && die_of(
                    table@,
                    pool@,
                    k,
                ).faces_valid(faces_of(draws@)[k]),
        decreases pool.len() - i,
    {
        assert(table@.contains_key(pool@[i as int].0@));
        let item = match table.get(&pool[i].0) {
            Some(item) => item,
            None => {
                assert(false);
                return Err(PoolRollError::Overflow);
            },
        };
        assert(item@ == die_of(table@, pool@, i as int));
        let count = pool[i].1;
        let faces = item.draw(count);
        let ghost before = draws@;
        let ghost fv = faces@;
        draws.push(faces);
        assert forall|k: int| 0 <= k < i + 1 implies #[trigger] faces_of(draws@)[k].len() == pool@[k].1
            && die_of(table@, pool@, k).faces_valid(faces_of(draws@)[k]) by {
            assert(faces_of(draws@)[k] == draws@[k]@);
            if k < i {
                assert(draws@[k] == before[k]);
                assert(faces_of(before)[k] == before[k]@);
            } else {
                assert(draws@[k]@ == fv);
            }
        }
        i = i + 1;
    }
    match total_draws(table, pool, &draws) {
        Some(x) => Ok(x),
        None => Err(PoolRollError::Overflow),
    }
}

} // verus!
