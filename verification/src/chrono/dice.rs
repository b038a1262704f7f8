//! The dice table: reading its rows, looking dice up, and rolling them.
//!
//! A row of the table reads `name,sides,color,faces`, where `faces` lists
//! one written face per side, separated by `/` (see [`spec_face`]).
use vstd::prelude::*;

use crate::chrono::axes::{spec_face, RollAxes, RollAxesVec};
use crate::chrono::error::RollError;
use crate::chrono::tally::{
    axes_fit, axes_fit_check, lemma_min_max_bound, lemma_scale_step, lemma_scaled_fits, max_tally, min_tally,
    sum_axes, DiceRollResult, Tally,
};
use rand::RngExt;
use crate::text::{
    chars_of, decimal, parse_u8, push_decimal, spec_parse_u8, split, split_ranges,
    string_from_range, push_range, lemma_split_nonempty,
};

verus! {

/// One die of the table.
#[derive(Debug)]
pub struct DiceRollTableItem {
    pub name: String,
    pub die_sides: u8,
    pub color: String,
    pub outcomes: Vec<DiceRollResult>,
}

/// The mathematical value of a die.
pub struct ItemView {
    pub name: Seq<char>,
    pub die_sides: u8,
    pub color: Seq<char>,
    pub outcomes: Seq<Tally>,
}

impl View for DiceRollTableItem {
    type V = ItemView;

    open spec fn view(&self) -> ItemView {
        ItemView {
            name: self.name@,
            die_sides: self.die_sides,
            color: self.color@,
            outcomes: self.outcomes@.map_values(|r: DiceRollResult| r@),
        }
    }
}

/// Why a row of the table was refused.
pub enum RowError {
    MissingDieSides,
    InvalidDieSides,
    MissingColor,
    MissingOutcomes,
    InvalidAxis(char),
    LengthMismatch(nat, u8),
}

/// The outcomes of each written face in turn, or the first character in
/// them that stands for no outcome.
pub open spec fn spec_faces(fs: Seq<Seq<char>>) -> Result<Seq<Seq<RollAxes>>, char>
    decreases fs.len(),
{
    if fs.len() == 0 {
        Ok(Seq::empty())
    } else {
        match spec_faces(fs.drop_last()) {
            Err(c) => Err(c),
            Ok(v) => match spec_face(fs.last()) {
                Ok(a) => Ok(v.push(a)),
                Err(c) => Err(c),
            },
        }
    }
}

/// The faces of a row read one by one, each as the face reader reads it on
/// its own (so a `B` face is one blank, as it is alone): reading succeeds
/// exactly when every face reads, giving one outcome list per face in
/// order; otherwise it fails with the error of the first face that does
/// not read.
pub proof fn lemma_faces_per_face(fs: Seq<Seq<char>>)
    ensures
        spec_faces(fs) is Ok <==> forall|i: int| 0 <= i < fs.len() ==> #[trigger] spec_face(fs[i]) is Ok,
        spec_faces(fs) matches Ok(v) ==> v.len() == fs.len() && forall|i: int|
            0 <= i < fs.len() ==> v[i] == (#[trigger] spec_face(fs[i]))->Ok_0,
        spec_faces(fs) matches Err(c) ==> exists|i: int|
            0 <= i < fs.len() && #[trigger] spec_face(fs[i]) == Err::<Seq<RollAxes>, char>(c) && forall|j: int|
                0 <= j < i ==> #[trigger] spec_face(fs[j]) is Ok,
    decreases fs.len(),
{
    if fs.len() > 0 {
        let init = fs.drop_last();
        lemma_faces_per_face(init);
        assert forall|i: int| 0 <= i < init.len() implies init[i] == fs[i] by {}
        if spec_faces(init) is Err {
            let c = spec_faces(init)->Err_0;
            let i = choose|i: int|
                0 <= i < init.len() && #[trigger] spec_face(init[i]) == Err::<Seq<RollAxes>, char>(c)
                    && forall|j: int| 0 <= j < i ==> #[trigger] spec_face(init[j]) is Ok;
            assert(spec_face(fs[i]) == Err::<Seq<RollAxes>, char>(c));
            assert forall|j: int| 0 <= j < i implies #[trigger] spec_face(fs[j]) is Ok by {
                assert(spec_face(init[j]) is Ok);
            }
        } else {
            assert forall|j: int| 0 <= j < init.len() implies #[trigger] spec_face(fs[j]) is Ok by {
                assert(spec_face(init[j]) is Ok);
            }
            assert(fs.last() == fs[fs.len() - 1]);
        }
    }
}

/// The totals of faces, one per face.
pub open spec fn face_totals(faces: Seq<Seq<RollAxes>>) -> Seq<Tally> {
    faces.map_values(|f: Seq<RollAxes>| sum_axes(f))
}

/// What a row of the table reads as. Fields past the fourth are ignored.
/// The row is a die only when it has exactly as many faces as `sides`
/// (which is then positive, since a row always has at least one face).
pub open spec fn spec_parse_row(s: Seq<char>) -> Result<ItemView, RowError> {
    let f = split(s, ',');
    if f.len() < 2 {
        Err(RowError::MissingDieSides)
    } else if spec_parse_u8(f[1]) is Err {
        Err(RowError::InvalidDieSides)
    } else if f.len() < 3 {
        Err(RowError::MissingColor)
    } else if f.len() < 4 {
        Err(RowError::MissingOutcomes)
    } else {
        match spec_faces(split(f[3], '/')) {
            Err(c) => Err(RowError::InvalidAxis(c)),
            Ok(faces) => {
                let outs = face_totals(faces);
                let d = spec_parse_u8(f[1])->Ok_0;
                if outs.len() != d as int {
                    Err(RowError::LengthMismatch(outs.len(), d))
                } else {
                    Ok(ItemView { name: f[0], die_sides: d, color: f[2], outcomes: outs })
                }
            },
        }
    }
}

/// A row that is read has as many faces as sides, and at least one side.
pub proof fn lemma_row_faces_match_sides(s: Seq<char>)
    ensures
        spec_parse_row(s) matches Ok(v) ==> v.outcomes.len() == v.die_sides as int && v.die_sides
            > 0,
{
    let f = split(s, ',');
    if f.len() >= 4 {
        crate::text::lemma_split_nonempty(f[3], '/');
        if let Ok(faces) = spec_faces(split(f[3], '/')) {
            lemma_faces_len(split(f[3], '/'));
        }
    }
}

/// A row that is read holds its first field as its name, its second read
/// as a `u8` as its sides, its third as its color, and the total of each
/// face of its fourth, split at `/`, as its outcomes, in order; there are
/// as many outcomes as sides, and at least one.
pub proof fn lemma_row_fields(s: Seq<char>)
    ensures
        spec_parse_row(s) matches Ok(v) ==> {
            let f = split(s, ',');
            &&& f.len() >= 4
            &&& v.name == f[0]
            &&& spec_parse_u8(f[1]) == Ok::<u8, crate::text::IntErrorKind>(v.die_sides)
            &&& v.color == f[2]
            &&& spec_faces(split(f[3], '/')) matches Ok(faces) && v.outcomes.len() == faces.len()
                && forall|i: int| 0 <= i < faces.len() ==> v.outcomes[i] == sum_axes(#[trigger] faces[i])
            &&& v.outcomes.len() == v.die_sides as int
            &&& v.die_sides > 0
        },
{
    lemma_row_faces_match_sides(s);
}

/// The faces that are read are as many as the written faces.
proof fn lemma_faces_len(fs: Seq<Seq<char>>)
    ensures
        spec_faces(fs) matches Ok(v) ==> v.len() == fs.len(),
    decreases fs.len(),
{
    if fs.len() > 0 {
        lemma_faces_len(fs.drop_last());
    }
}

/// Totalling each face of a row that reads that far stays within range.
pub open spec fn row_fits(s: Seq<char>) -> bool {
    let f = split(s, ',');
    (f.len() >= 4 && spec_parse_u8(f[1]) is Ok) ==> match spec_faces(split(f[3], '/')) {
        Ok(faces) => forall|i: int| 0 <= i < faces.len() ==> axes_fit(#[trigger] faces[i]),
        Err(_) => true,
    }
}

/// The message of a row whose number of faces differs from its sides.
pub open spec fn length_message(n: nat, d: u8, line: Seq<char>) -> Seq<char> {
    "- Length of results does not equal die_sides ("@ + decimal(n) + " != "@ + decimal(
        d as nat,
    ) + ");\n- Line: "@ + line
}

/// `e` is the error that reports `k` for the row `line`.
pub open spec fn row_error_is(e: RollError, k: RowError, line: Seq<char>) -> bool {
    match k {
        RowError::MissingDieSides => e matches RollError::InvalidRow(m) && m@
            == "dice row missing die_sides"@,
        RowError::InvalidDieSides => e matches RollError::ValidationError(m) && m@
            == "dice row has invalid u8 for die_sides"@,
        RowError::MissingColor => e matches RollError::InvalidRow(m) && m@
            == "dice row missing color"@,
        RowError::MissingOutcomes => e matches RollError::InvalidRow(m) && m@
            == "dice row missing outcomes"@,
        RowError::InvalidAxis(c) => e matches RollError::InvalidAxisChar(x) && x == c,
        RowError::LengthMismatch(n, d) => e matches RollError::ValidationError(m) && m@
            == length_message(n, d, line),
    }
}

/// Reads the faces written in `chars[lo..hi]`, separated by `/`: the
/// outcomes of each face in turn, or the first character that stands for
/// no outcome.
pub fn read_faces(chars: &Vec<char>, lo: usize, hi: usize) -> (r: Result<Vec<RollAxesVec>, RollError>)
    requires
        lo <= hi <= chars.len(),
    ensures
        match spec_faces(split(chars@.subrange(lo as int, hi as int), '/')) {
            Ok(v) => r matches Ok(n) && n.len() == v.len() && forall|k: int|
                0 <= k < v.len() ==> #[trigger] n@[k]@ == v[k],
            Err(c) => r matches Err(RollError::InvalidAxisChar(x)) && x == c,
        },
{
    let faces = split_ranges(chars, lo, hi, '/');
    let ghost fs = split(chars@.subrange(lo as int, hi as int), '/');
    let mut nested: Vec<RollAxesVec> = Vec::new();
    let mut i: usize = 0;
    #[verifier::loop_isolation(false)]
    while i < faces.len()
        invariant
            i <= faces.len() == fs.len(),
            nested.len() == i,
            spec_faces(fs.take(i as int)) matches Ok(v) && v.len() == i && forall|k: int|
                0 <= k < i ==> #[trigger] nested@[k]@ == v[k],
        decreases faces.len() - i,
    {
        assert(fs.take(i + 1).drop_last() =~= fs.take(i as int));
        assert(fs.take(i + 1).last() == fs[i as int]);
        match RollAxesVec::from_chars(chars, faces[i].0, faces[i].1) {
            Ok(v) => {
                nested.push(v);
            },
            Err(e) => {
                proof {
                    assert(spec_faces(fs.take(i + 1)) is Err);
                    lemma_faces_error_extends(fs, i + 1);
                    assert(fs.take(fs.len() as int) =~= fs);
                }
                return Err(e);
            },
        }
        i = i + 1;
    }
    assert(fs.take(i as int) =~= fs);
    Ok(nested)
}

/// Whether the row written in `chars[lo..hi]` totals its faces within range
/// (see [`row_fits`]).
pub fn row_fits_check(chars: &Vec<char>, lo: usize, hi: usize) -> (b: bool)
    requires
        lo <= hi <= chars.len(),
    ensures
        b == row_fits(chars@.subrange(lo as int, hi as int)),
{
    let ghost cs = chars@.subrange(lo as int, hi as int);
    let fields = split_ranges(chars, lo, hi, ',');
    let ghost f = split(cs, ',');
    if fields.len() < 4 {
        return true;
    }
    if parse_u8(chars, fields[1].0, fields[1].1).is_err() {
        return true;
    }
    let ghost fs = split(f[3], '/');
    let nested = match read_faces(chars, fields[3].0, fields[3].1) {
        Ok(n) => n,
        Err(_) => {
            return true;
        },
    };
    let ghost parsed = spec_faces(fs)->Ok_0;
    let mut j: usize = 0;
    #[verifier::loop_isolation(false)]
    while j < nested.len()
        invariant
            j <= nested.len() == parsed.len(),
            forall|k: int| 0 <= k < nested.len() ==> #[trigger] nested@[k]@ == parsed[k],
            forall|k: int| 0 <= k < j ==> axes_fit(#[trigger] parsed[k]),
        decreases nested.len() - j,
    {
        assert(nested@[j as int]@ == parsed[j as int]);
        if !axes_fit_check(&nested[j].0) {
            return false;
        }
        j = j + 1;
    }
    true
}

impl DiceRollTableItem {
    /// Reads one row of the table.
    pub fn try_from(s: &str) -> (r: Result<DiceRollTableItem, RollError>)
        requires
            row_fits(s@),
        ensures
            match spec_parse_row(s@) {
                Ok(v) => r matches Ok(item) && item@ == v,
                Err(k) => r matches Err(e) && row_error_is(e, k, s@),
            },
    {
        let chars = chars_of(s);
        assert(chars@.subrange(0, chars.len() as int) =~= chars@);
        DiceRollTableItem::from_chars(&chars, 0, chars.len())
    }

    /// Reads the row written in `chars[lo..hi]`.
    pub fn from_chars(chars: &Vec<char>, lo: usize, hi: usize) -> (r: Result<
        DiceRollTableItem,
        RollError,
    >)
        requires
            lo <= hi <= chars.len(),
            row_fits(chars@.subrange(lo as int, hi as int)),
        ensures
            match spec_parse_row(chars@.subrange(lo as int, hi as int)) {
                Ok(v) => r matches Ok(item) && item@ == v,
                Err(k) => r matches Err(e) && row_error_is(e, k, chars@.subrange(lo as int, hi as int)),
            },
    {
        let ghost cs = chars@.subrange(lo as int, hi as int);
        let fields = split_ranges(chars, lo, hi, ',');
        let ghost f = split(cs, ',');
        proof {
            lemma_split_nonempty(cs, ',');
        }
        if fields.len() < 2 {
            return Err(RollError::InvalidRow(String::from_str("dice row missing die_sides")));
        }
        let die_sides = match parse_u8(chars, fields[1].0, fields[1].1) {
            Ok(d) => d,
            Err(_) => {
                return Err(
                    RollError::ValidationError(
                        String::from_str("dice row has invalid u8 for die_sides"),
                    ),
                );
            },
        };
        if fields.len() < 3 {
            return Err(RollError::InvalidRow(String::from_str("dice row missing color")));
        }
        if fields.len() < 4 {
            return Err(RollError::InvalidRow(String::from_str("dice row missing outcomes")));
        }
        let name = string_from_range(chars, fields[0].0, fields[0].1);
        let color = string_from_range(chars, fields[2].0, fields[2].1);
        let ghost fs = split(f[3], '/');
        let nested = match read_faces(chars, fields[3].0, fields[3].1) {
            Ok(n) => n,
            Err(e) => {
                return Err(e);
            },
        };
        let ghost parsed = spec_faces(fs)->Ok_0;
        let mut outcomes: Vec<DiceRollResult> = Vec::new();
        let mut j: usize = 0;
        while j < nested.len()
            invariant
                j <= nested.len() == parsed.len(),
                forall|k: int| 0 <= k < nested.len() ==> #[trigger] nested@[k]@ == parsed[k],
                forall|k: int| 0 <= k < parsed.len() ==> axes_fit(#[trigger] parsed[k]),
                outcomes.len() == j,
                forall|k: int| 0 <= k < j ==> #[trigger] outcomes@[k]@ == sum_axes(parsed[k]),
            decreases nested.len() - j,
        {
            assert(nested@[j as int]@ == parsed[j as int]);
            let t = DiceRollResult::from_axes(&nested[j].0);
            outcomes.push(t);
            j = j + 1;
        }
        assert(outcomes@.map_values(|r: DiceRollResult| r@) =~= face_totals(parsed));
        if outcomes.len() != die_sides as usize {
            let mut m = String::from_str("- Length of results does not equal die_sides (");
            push_decimal(&mut m, outcomes.len());
            m.append(" != ");
            push_decimal(&mut m, die_sides as usize);
            m.append(");\n- Line: ");
            push_range(&mut m, chars, lo, hi);
            return Err(RollError::ValidationError(m));
        }
        Ok(DiceRollTableItem { name, die_sides, color, outcomes })
    }
}

/// Once a prefix of the faces fails, all of them fail at the same character.
proof fn lemma_faces_error_extends(fs: Seq<Seq<char>>, k: int)
    requires
        0 <= k <= fs.len(),
        spec_faces(fs.take(k)) is Err,
    ensures
        spec_faces(fs) == spec_faces(fs.take(k)),
    decreases fs.len() - k,
{
    if k < fs.len() {
        assert(fs.take(k + 1).drop_last() =~= fs.take(k));
        lemma_faces_error_extends(fs, k + 1);
    } else {
        assert(fs.take(k) =~= fs);
    }
}


impl ItemView {
    /// There is a side to land on, and each side has an outcome.
    pub open spec fn has_sides(self) -> bool {
        0 < self.die_sides <= self.outcomes.len()
    }

    /// The faces that a roll can land on: the first `die_sides` totals.
    pub open spec fn sides(self) -> Seq<Tally> {
        self.outcomes.take(self.die_sides as int)
    }

    /// Score by score largest face.
    pub open spec fn hi(self) -> Tally {
        max_tally(self.sides())
    }

    /// Score by score smallest face.
    pub open spec fn lo(self) -> Tally {
        min_tally(self.sides())
    }

    /// Each face number names a side of the die that has a face.
    pub open spec fn faces_valid(self, faces: Seq<u8>) -> bool {
        forall|k: int|
            0 <= k < faces.len() ==> #[trigger] faces[k] < self.die_sides && faces[k]
                < self.outcomes.len()
    }

    /// The total of the faces landed on, added left to right.
    pub open spec fn faces_total(self, faces: Seq<u8>) -> Tally
        decreases faces.len(),
    {
        if faces.len() == 0 {
            Tally::zero()
        } else {
            self.faces_total(faces.drop_last()).plus(self.outcomes[faces.last() as int])
        }
    }

    /// Rolling the die `count` times cannot fail, whatever faces come up:
    /// there is a side to land on, and neither `count` copies of the largest
    /// face nor `count` copies of the smallest overflow.
    pub open spec fn roll_fits(self, count: int) -> bool {
        count == 0 || {
            &&& 0 < self.die_sides <= self.outcomes.len()
            &&& self.hi().scale(count).fits()
            &&& self.lo().scale(count).fits()
        }
    }
}

/// A total of `k` valid faces lies between `k` copies of the smallest face
/// and `k` copies of the largest.
pub proof fn lemma_faces_total_bounds(item: ItemView, faces: Seq<u8>)
    requires
        item.die_sides <= item.outcomes.len(),
        item.faces_valid(faces),
    ensures
        item.lo().scale(faces.len() as int).le(item.faces_total(faces)),
        item.faces_total(faces).le(item.hi().scale(faces.len() as int)),
    decreases faces.len(),
{
    let k = faces.len() as int;
    if k == 0 {
        lemma_scale_step(item.lo(), 0);
        lemma_scale_step(item.hi(), 0);
    } else {
        let d = faces.drop_last();
        assert(item.faces_valid(d)) by {
            assert forall|j: int| 0 <= j < d.len() implies #[trigger] d[j] < item.die_sides && d[j]
                < item.outcomes.len() by {
                assert(d[j] == faces[j]);
            }
        }
        lemma_faces_total_bounds(item, d);
        lemma_scale_step(item.lo(), k - 1);
        lemma_scale_step(item.hi(), k - 1);
        let f = faces.last() as int;
        assert(faces[k - 1] < item.die_sides && faces[k - 1] < item.outcomes.len());
        assert(item.sides()[f] == item.outcomes[f]);
        lemma_min_max_bound(item.sides(), f);
    }
}

/// Every partial total of a roll that `roll_fits` allows is in range.
pub proof fn lemma_roll_prefix_fits(item: ItemView, faces: Seq<u8>, count: int, k: int)
    requires
        item.roll_fits(count),
        item.faces_valid(faces),
        faces.len() == count,
        0 <= k <= count,
    ensures
        item.faces_total(faces.take(k)).fits(),
{
    let p = faces.take(k);
    assert(item.faces_valid(p)) by {
        assert forall|j: int| 0 <= j < p.len() implies #[trigger] p[j] < item.die_sides && p[j]
            < item.outcomes.len() by {
            assert(p[j] == faces[j]);
        }
    }
    if count == 0 {
        assert(p.len() == 0);
    } else {
        lemma_faces_total_bounds(item, p);
        lemma_scaled_fits(item.lo(), item.hi(), k, count, item.faces_total(p));
    }
}

#[verifier::external_type_specification]
#[verifier::external_body]
pub struct ExThreadRng(rand::rngs::ThreadRng);

/// `rand::rng`: a handle to the thread-local generator. (It panics only if
/// the operating system cannot seed it, which no input here controls.)
#[verifier::external_body]
fn thread_rng() -> rand::rngs::ThreadRng {
    rand::rng()
}

/// `RngExt::random_range` over `0..sides`: some value below `sides`; which
/// one is left open.
#[verifier::external_body]
fn random_below(rng: &mut rand::rngs::ThreadRng, sides: u8) -> (r: u8)
    requires
        sides > 0,
    ensures
        r < sides,
{
    rng.random_range(0..sides)
}

impl DiceRollTableItem {
    /// The score by score largest and smallest faces that a roll can land on.
    pub fn bounds(&self) -> (r: (DiceRollResult, DiceRollResult))
        requires
            0 < self.die_sides <= self.outcomes.len(),
        ensures
            r.0@ == self@.hi(),
            r.1@ == self@.lo(),
    {
        let ghost sides = self@.sides();
        let n = self.die_sides as usize;
        let mut hi = self.outcomes[0];
        let mut lo = self.outcomes[0];
        assert(sides.take(1) =~= seq![sides[0]]);
        let mut k: usize = 1;
        while k < n
            invariant
                1 <= k <= n <= self.outcomes.len(),
                n == self.die_sides,
                sides == self@.outcomes.take(n as int),
                hi@ == max_tally(sides.take(k as int)),
                lo@ == min_tally(sides.take(k as int)),
            decreases n - k,
        {
            assert(sides.take(k + 1).drop_last() =~= sides.take(k as int));
            assert(sides.take(k + 1).last() == self.outcomes@[k as int]@);
            hi = DiceRollResult::max_of(&hi, &self.outcomes[k]);
            lo = DiceRollResult::min_of(&lo, &self.outcomes[k]);
            k = k + 1;
        }
        assert(sides.take(n as int) =~= sides);
        (hi, lo)
    }

    /// The total of the faces landed on, added left to right.
    pub fn tally_faces(&self, faces: &Vec<u8>) -> (r: DiceRollResult)
        requires
            self@.faces_valid(faces@),
            forall|k: int| 0 <= k <= faces.len() ==> #[trigger] self@.faces_total(faces@.take(k)).fits(),
        ensures
            r@ == self@.faces_total(faces@),
    {
        let mut r = DiceRollResult::default();
        let mut i: usize = 0;
        while i < faces.len()
            invariant
                i <= faces.len(),
                self@.faces_valid(faces@),
                forall|k: int| 0 <= k <= faces.len() ==> #[trigger] self@.faces_total(faces@.take(k)).fits(),
                r@ == self@.faces_total(faces@.take(i as int)),
            decreases faces.len() - i,
        {
            assert(faces@.take(i + 1).drop_last() =~= faces@.take(i as int));
            assert(faces@.take(i + 1).last() == faces@[i as int]);
            assert(self@.faces_total(faces@.take(i + 1)).fits());
            let f = faces[i];
            assert(f < self.outcomes.len());
            assert(self@.outcomes[f as int] == self.outcomes@[f as int]@);
            r.add_result(&self.outcomes[f as usize]);
            i = i + 1;
        }
        assert(faces@.take(i as int) =~= faces@);
        r
    }

    /// Rolls the die `count` times: the faces it lands on, in order. Which
    /// faces come up rests on chance.
    pub fn draw(&self, count: u8) -> (faces: Vec<u8>)
        requires
            count == 0 || self@.has_sides(),
        ensures
            faces.len() == count,
            self@.faces_valid(faces@),
    {
        let mut faces: Vec<u8> = Vec::new();
        if count > 0 {
            let mut rng = thread_rng();
            let mut i: u8 = 0;
            while i < count
                invariant
                    i <= count,
                    0 < self.die_sides <= self.outcomes.len(),
                    faces.len() == i,
                    self@.faces_valid(faces@),
                decreases count - i,
            {
                let f = random_below(&mut rng, self.die_sides);
                faces.push(f);
                i = i + 1;
            }
        }
        faces
    }

    /// Rolls the die `count` times and totals the faces it lands on.
    pub fn roll(&self, count: u8) -> (r: DiceRollResult)
        requires
            self@.roll_fits(count as int),
        ensures
            exists|faces: Seq<u8>|
                {
                    &&& faces.len() == count
                    &&& self@.faces_valid(faces)
                    &&& r@ == self@.faces_total(faces)
                },
    {
        let faces = self.draw(count);
        proof {
            assert forall|k: int| 0 <= k <= faces.len() implies #[trigger] self@.faces_total(
                faces@.take(k),
            ).fits() by {
                lemma_roll_prefix_fits(self@, faces@, count as int, k);
            }
        }
        self.tally_faces(&faces)
    }
}

} // verus!
