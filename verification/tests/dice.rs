use chronobot::chrono::axes::{RollAxes, RollAxesVec};
use chronobot::chrono::dice::{row_fits_check, DiceRollTableItem};
use chronobot::chrono::error::{IoError, RollError};
use chronobot::chrono::table::{
    first_unknown_die, parse_dice_table, roll_dice, total_draws, PoolRollError, pool_fits_check, roll_fitting_pool, table_fits_check, try_roll_dice, DiceTable,
};
use chronobot::chrono::tally::{axes_fit_check, DiceRollResult};

fn totals(r: &DiceRollResult) -> (i16, u8, i8, u8, u8) {
    (r.passfail, r.blank, r.luck, r.triumph, r.despair)
}

fn table(rows: &[&str]) -> DiceTable {
    let mut t = DiceTable::new();
    for row in rows {
        t.insert(DiceRollTableItem::try_from(row).unwrap());
    }
    t
}

#[test]
fn roll0() {
    let empty = roll_dice(&DiceTable::new(), &vec![]).unwrap();

    assert!(empty.passfail == 0);
    assert!(empty.blank == 0);
    assert!(empty.luck == 0);
    assert!(empty.triumph == 0);
    assert!(empty.despair == 0);
}

#[test]
fn adding_two_axes() {
    let a = RollAxes::PassFail { outcome: true, outstanding: true };
    let b = RollAxes::PassFail { outcome: false, outstanding: false };
    let result = a.add(&b);
    assert_eq!(totals(&result), (0, 0, 0, 1, 0));
    assert_eq!(totals(&b.add(&a)), totals(&result));
}

#[test]
fn axis_characters() {
    assert_eq!(RollAxes::try_from('S').unwrap(), RollAxes::PassFail { outcome: true, outstanding: false });
    assert_eq!(RollAxes::try_from('F').unwrap(), RollAxes::PassFail { outcome: false, outstanding: false });
    assert_eq!(RollAxes::try_from('*').unwrap(), RollAxes::PassFail { outcome: true, outstanding: true });
    assert_eq!(RollAxes::try_from('X').unwrap(), RollAxes::PassFail { outcome: false, outstanding: true });
    assert_eq!(RollAxes::try_from('O').unwrap(), RollAxes::OppThreat(true));
    assert_eq!(RollAxes::try_from('T').unwrap(), RollAxes::OppThreat(false));
    assert!(matches!(RollAxes::try_from('B'), Err(RollError::InvalidAxisChar('B'))));
    assert!(matches!(RollAxes::try_from('s'), Err(RollError::InvalidAxisChar('s'))));
}

#[test]
fn faces_blank_forms() {
    let empty = RollAxesVec::from_str("").unwrap();
    let b = RollAxesVec::from_str("B").unwrap();
    assert_eq!(empty.0, vec![RollAxes::Blank]);
    assert_eq!(b.0, vec![RollAxes::Blank]);
    let so = RollAxesVec::from_str("SO").unwrap();
    assert_eq!(so.0, vec![RollAxes::PassFail { outcome: true, outstanding: false }, RollAxes::OppThreat(true)]);
    assert!(matches!(RollAxesVec::from_str("SB"), Err(RollError::InvalidAxisChar('B'))));
    assert!(matches!(RollAxesVec::from_str("BB"), Err(RollError::InvalidAxisChar('B'))));
    assert!(matches!(RollAxesVec::from_str("SQT"), Err(RollError::InvalidAxisChar('Q'))));
}

#[test]
fn face_total_ignores_order() {
    let a = DiceRollResult::from_axes(&RollAxesVec::from_str("S*OT").unwrap().0);
    let b = DiceRollResult::from_axes(&RollAxesVec::from_str("TO*S").unwrap().0);
    assert_eq!(totals(&a), totals(&b));
    assert_eq!(totals(&a), (2, 0, 0, 1, 0));
    let x = DiceRollResult::from_axes(&RollAxesVec::from_str("XFT").unwrap().0);
    assert_eq!(totals(&x), (-2, 0, -1, 0, 1));
}

#[test]
fn add_result_adds_each_score() {
    let mut a = DiceRollResult::from_axes(&RollAxesVec::from_str("S*O").unwrap().0);
    let b = DiceRollResult::from_axes(&RollAxesVec::from_str("XT").unwrap().0);
    a.add_result(&b);
    assert_eq!(totals(&a), (1, 0, 0, 1, 1));
    let mut c = DiceRollResult::default();
    c.add_axis(&RollAxes::Blank);
    assert_eq!(totals(&c), (0, 1, 0, 0, 0));
}

#[test]
fn advantage_row() {
    let item = DiceRollTableItem::try_from("Advantage,6,Blue,//S/SO/OO/O").unwrap();
    assert_eq!(item.name, "Advantage");
    assert_eq!(item.die_sides, 6);
    assert_eq!(item.color, "Blue");
    let faces: Vec<_> = item.outcomes.iter().map(totals).collect();
    assert_eq!(
        faces,
        vec![(0, 1, 0, 0, 0), (0, 1, 0, 0, 0), (1, 0, 0, 0, 0), (1, 0, 1, 0, 0), (0, 0, 2, 0, 0), (0, 0, 1, 0, 0)]
    );
}

#[test]
fn row_errors() {
    match DiceRollTableItem::try_from("Advantage") {
        Err(RollError::InvalidRow(m)) => assert_eq!(m, "dice row missing die_sides"),
        _ => panic!("expected a missing die_sides"),
    }
    match DiceRollTableItem::try_from("A,x,Blue,S") {
        Err(RollError::ValidationError(m)) => assert_eq!(m, "dice row has invalid u8 for die_sides"),
        _ => panic!("expected an invalid die_sides"),
    }
    match DiceRollTableItem::try_from("A,1") {
        Err(RollError::InvalidRow(m)) => assert_eq!(m, "dice row missing color"),
        _ => panic!("expected a missing color"),
    }
    match DiceRollTableItem::try_from("A,1,Blue") {
        Err(RollError::InvalidRow(m)) => assert_eq!(m, "dice row missing outcomes"),
        _ => panic!("expected missing outcomes"),
    }
    match DiceRollTableItem::try_from("A,2,Blue,S") {
        Err(RollError::ValidationError(m)) => {
            assert_eq!(m, "- Length of results does not equal die_sides (1 != 2);\n- Line: A,2,Blue,S")
        }
        _ => panic!("expected a length mismatch"),
    }
    assert!(matches!(DiceRollTableItem::try_from("A,1,Blue,Q"), Err(RollError::InvalidAxisChar('Q'))));
    assert!(matches!(DiceRollTableItem::try_from("A,1,Blue,S,extra"), Ok(_)));
}

#[test]
fn row_faces_match_sides() {
    for n in 0u8..20 {
        let faces = vec!["S"; n as usize].join("/");
        let row = format!("D,{},Red,{}", n, faces);
        match DiceRollTableItem::try_from(&row) {
            Ok(item) => {
                assert_eq!(item.outcomes.len(), item.die_sides as usize);
                assert!(n > 0);
            }
            Err(_) => assert_eq!(n, 0),
        }
    }
}

#[test]
fn row_face_count_is_not_wrapped() {
    let zero_sides = "D,0,C,".to_string() + &"/".repeat(255);
    assert!(matches!(DiceRollTableItem::try_from(&zero_sides), Err(RollError::ValidationError(_))));
    let short = "D,1,C,".to_string() + &"/".repeat(256);
    assert!(matches!(DiceRollTableItem::try_from(&short), Err(RollError::ValidationError(_))));
}

#[test]
fn error_messages() {
    assert_eq!(RollError::InvalidAxisChar('Q').message(), "Q");
    assert_eq!(RollError::InvalidRow("row".to_string()).message(), "row");
    assert_eq!(RollError::ValidationError("bad".to_string()).message(), "bad");
    assert_eq!(RollError::InvalidSource("src".to_string()).message(), "src");
    assert_eq!(RollError::InvalidAxisString("ax".to_string()).message(), "ax");
}

#[test]
fn table_from_text() {
    let raw = "Name,Sides,Color,Results\r\nAdvantage,6,Blue,//S/SO/OO/O\r\nBoost,1,Green,S\nBoost,2,Green,F/T\n";
    let t = parse_dice_table(raw).unwrap();
    assert!(t.contains_key(&"Advantage".to_string()));
    let boost = t.get(&"Boost".to_string()).unwrap();
    assert_eq!(boost.die_sides, 2);
    assert_eq!(boost.color, "Green");
    assert!(t.get(&"Name".to_string()).is_none());
    let adv = t.get(&"Advantage".to_string()).unwrap();
    assert_eq!(adv.outcomes.len(), 6);
}

#[test]
fn table_text_errors() {
    assert!(parse_dice_table("").unwrap().get(&"A".to_string()).is_none());
    assert!(parse_dice_table("header only").is_ok());
    match parse_dice_table("h\nA,1,Red,S\nB,2,Red,S\nC,1,Red,Q") {
        Err(RollError::ValidationError(m)) => {
            assert_eq!(m, "- Length of results does not equal die_sides (1 != 2);\n- Line: B,2,Red,S")
        }
        _ => panic!("expected the second row to fail"),
    }
}

#[test]
fn insert_then_get() {
    let mut t = DiceTable::new();
    t.insert(DiceRollTableItem::try_from("A,1,Red,S").unwrap());
    t.insert(DiceRollTableItem::try_from("B,1,Red,F").unwrap());
    t.insert(DiceRollTableItem::try_from("A,1,Blue,O").unwrap());
    assert_eq!(t.get(&"A".to_string()).unwrap().color, "Blue");
    assert_eq!(t.get(&"B".to_string()).unwrap().color, "Red");
}

#[test]
fn roll_single_sided_die() {
    let t = table(&["One,1,White,S*"]);
    let r = roll_fitting_pool(&t, &vec![("One".to_string(), 3)]);
    assert_eq!(totals(&r), (6, 0, 0, 3, 0));
    let item = t.get(&"One".to_string()).unwrap();
    assert_eq!(totals(&item.roll(0)), (0, 0, 0, 0, 0));
    assert_eq!(totals(&item.tally_faces(&vec![0, 0])), (4, 0, 0, 2, 0));
}

#[test]
fn roll_stays_within_faces() {
    let t = table(&["Advantage,6,Blue,//S/SO/OO/O", "Threat,2,Black,T/TT"]);
    for _ in 0..200 {
        let r = roll_fitting_pool(&t, &vec![("Advantage".to_string(), 4), ("Threat".to_string(), 2)]);
        assert!(r.passfail >= 0 && r.passfail <= 4);
        assert!(r.blank <= 4);
        assert!(r.luck >= -4 && r.luck <= 8);
        assert_eq!(r.triumph, 0);
        assert_eq!(r.despair, 0);
    }
}

#[test]
fn pool_checks() {
    let long_o = "O".repeat(100);
    let t = table(&["Advantage,6,Blue,//S/SO/OO/O", &format!("Lucky,1,Gold,{}", long_o)]);
    assert!(pool_fits_check(&t, &vec![("Advantage".to_string(), 63)]));
    assert!(!pool_fits_check(&t, &vec![("Advantage".to_string(), 64)]));
    assert!(pool_fits_check(&t, &vec![("Lucky".to_string(), 1)]));
    assert!(!pool_fits_check(&t, &vec![("Lucky".to_string(), 2)]));
    assert!(!pool_fits_check(&t, &vec![("Lucky".to_string(), 1), ("Lucky".to_string(), 1)]));
    assert!(!pool_fits_check(&t, &vec![("Missing".to_string(), 1)]));
    assert!(pool_fits_check(&t, &vec![("Missing".to_string(), 1)][..0].to_vec()));
    assert!(try_roll_dice(&t, &vec![("Lucky".to_string(), 2)]).is_none());
    let r = try_roll_dice(&t, &vec![("Lucky".to_string(), 1)]).unwrap();
    assert_eq!(r.luck, 100);
}

#[test]
fn unknown_dice_are_named() {
    let t = table(&["A,1,Red,S", "B,1,Red,F"]);
    let pool = |names: &[&str]| names.iter().map(|n| (n.to_string(), 1u8)).collect::<Vec<_>>();
    assert_eq!(first_unknown_die(&t, &pool(&["A", "B", "A"])), None);
    assert_eq!(first_unknown_die(&t, &pool(&[])), None);
    assert_eq!(first_unknown_die(&t, &pool(&["A", "X", "Y"])), Some("X".to_string()));
    assert_eq!(first_unknown_die(&t, &pool(&["Y", "B"])), Some("Y".to_string()));
}

#[test]
fn pools_with_unknown_dice_are_refused() {
    let long_o = "O".repeat(100);
    let t = table(&["A,1,Red,S", &format!("Lucky,1,Gold,{}", long_o)]);
    let pool = |names: &[(&str, u8)]| names.iter().map(|(n, k)| (n.to_string(), *k)).collect::<Vec<_>>();
    assert_eq!(
        roll_dice(&t, &pool(&[("A", 2), ("X", 1), ("Y", 1)])).err(),
        Some(PoolRollError::UnknownDie("X".to_string()))
    );
    assert_eq!(
        roll_dice(&t, &pool(&[("Lucky", 2), ("Z", 1)])).err(),
        Some(PoolRollError::UnknownDie("Z".to_string()))
    );
    assert_eq!(roll_dice(&t, &pool(&[("Lucky", 2)])).err(), Some(PoolRollError::Overflow));
    let r = roll_dice(&t, &pool(&[("A", 2), ("Lucky", 1)])).unwrap();
    assert_eq!(totals(&r), (2, 0, 100, 0, 0));
}

#[test]
fn totals_of_given_draws() {
    let t = table(&["Up,2,Gold,O/OO", "Down,1,Gray,T"]);
    let pool = vec![("Up".to_string(), 3u8), ("Down".to_string(), 2u8)];
    let r = total_draws(&t, &pool, &vec![vec![0, 1, 1], vec![0, 0]]).unwrap();
    assert_eq!(totals(&r), (0, 0, 3, 0, 0));
    let many = vec![("Up".to_string(), 64u8)];
    assert!(total_draws(&t, &many, &vec![vec![1; 64]]).is_none());
    assert_eq!(totals(&total_draws(&t, &many, &vec![vec![0; 64]]).unwrap()), (0, 0, 64, 0, 0));
    let up_down = vec![("Up".to_string(), 63u8), ("Up".to_string(), 1u8), ("Down".to_string(), 2u8)];
    let draws = vec![vec![1; 63], vec![1], vec![0, 0]];
    assert!(total_draws(&t, &up_down, &draws).is_none());
}

#[test]
fn io_error_clone_keeps_kind() {
    let e = IoError::new(std::io::Error::new(std::io::ErrorKind::NotFound, "no table"));
    assert_eq!(e.kind(), std::io::ErrorKind::NotFound);
    assert_eq!(e.message(), "no table");
    let c = e.clone();
    assert_eq!(c.kind(), std::io::ErrorKind::NotFound);
    assert_eq!(RollError::Io(c).message(), std::io::Error::from(std::io::ErrorKind::NotFound).to_string());
}

#[test]
fn bounds_of_a_die() {
    let item = DiceRollTableItem::try_from("Mixed,3,Grey,SS/XT/O").unwrap();
    let (hi, lo) = item.bounds();
    assert_eq!(totals(&hi), (2, 0, 1, 0, 1));
    assert_eq!(totals(&lo), (-1, 0, -1, 0, 0));
}

#[test]
fn face_and_row_fit_checks() {
    let ok = RollAxesVec::from_str(&"O".repeat(127)).unwrap();
    let too_many = RollAxesVec::from_str(&"O".repeat(128)).unwrap();
    let swings = RollAxesVec::from_str(&format!("{}{}", "T".repeat(129), "O".repeat(10))).unwrap();
    assert!(axes_fit_check(&ok.0));
    assert!(!axes_fit_check(&too_many.0));
    assert!(!axes_fit_check(&swings.0));

    let row: Vec<char> = format!("Big,1,Red,{}", "O".repeat(128)).chars().collect();
    assert!(!row_fits_check(&row, 0, row.len()));
    let bad_sides: Vec<char> = format!("Big,x,Red,{}", "O".repeat(128)).chars().collect();
    assert!(row_fits_check(&bad_sides, 0, bad_sides.len()));
    let bad_face: Vec<char> = format!("Big,2,Red,{}/Q", "O".repeat(128)).chars().collect();
    assert!(row_fits_check(&bad_face, 0, bad_face.len()));

    let big = "O".repeat(128);
    assert!(!table_fits_check(&format!("h\nA,1,Red,S\nBig,1,Red,{}", big)));
    assert!(table_fits_check(&format!("h\nA,2,Red,S\nBig,1,Red,{}", big)));
    assert!(table_fits_check("h\nA,1,Red,S"));
}

#[test]
fn adding_totals_groups_freely() {
    let a = DiceRollResult::from_axes(&RollAxesVec::from_str("S*").unwrap().0);
    let b = DiceRollResult::from_axes(&RollAxesVec::from_str("OT").unwrap().0);
    let c = DiceRollResult::from_axes(&RollAxesVec::from_str("XF").unwrap().0);
    let mut ab_c = a;
    ab_c.add_result(&b);
    ab_c.add_result(&c);
    let mut bc = b;
    bc.add_result(&c);
    let mut a_bc = a;
    a_bc.add_result(&bc);
    assert_eq!(totals(&ab_c), totals(&a_bc));
    let mut ba = b;
    ba.add_result(&a);
    let mut ab = a;
    ab.add_result(&b);
    assert_eq!(totals(&ab), totals(&ba));
    let mut z = a;
    z.add_result(&DiceRollResult::default());
    assert_eq!(totals(&z), totals(&a));
}
