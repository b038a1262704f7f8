use chronobot::bot::{command_arguments, split_command, CommandSet, CommandSets};
use chronobot::chrono::request::{parse_pools, parse_roll_request, roll_message};
use chronobot::command_context::{find_subcommands, subcommand_member, ContextError, FieldModel, Member};
use chronobot::command_set::{
    delegate_args, derive_variants, parse_fields, parse_variants, DataModel, DeriveError, AttributeModel, FieldsModel, VariantError, VariantModel,
};
use chronobot::commands::roll::{DicePool, DicePoolErrorKind, SubcommandRoll};
use chronobot::env::{add_env_entries, apply_env_entries, load, required_auth_token};
use chronobot::log::{log_line, LogContext, LogType};
use chronobot::naming::{field_name, field_names, sanitize_name, PathComponents};
use convert_case::{Case, Casing};
use chronobot::tables::column_a_where_column_b_is;
use chronobot::text::IntErrorKind;
use chronobot::util::{not_found_message, path_in_cwd_or_exedir, PathChoice};

#[test]
fn dice_pool_forms() {
    assert_eq!(DicePool::from_str("5d12").unwrap().pool(), (5, 12));
    assert_eq!(DicePool::from_str("2D20").unwrap().pool(), (2, 20));
    assert_eq!(DicePool::from_str("+3d+4").unwrap().pool(), (3, 4));
    assert_eq!(DicePool::from_str("5x12").unwrap_err().kind, DicePoolErrorKind::Format);
    assert_eq!(DicePool::from_str("ad3").unwrap_err().kind, DicePoolErrorKind::InvalidCount);
    assert_eq!(DicePool::from_str("256d6").unwrap_err().kind, DicePoolErrorKind::InvalidCount);
    assert_eq!(DicePool::from_str("d6").unwrap_err().kind, DicePoolErrorKind::InvalidCount);
    assert_eq!(DicePool::from_str("3d").unwrap_err().kind, DicePoolErrorKind::InvalidSize);
    assert_eq!(DicePool::from_str("3d6d").unwrap_err().kind, DicePoolErrorKind::InvalidSize);
}

#[test]
fn dice_pool_messages() {
    assert_eq!(DicePool::from_str("5x12").unwrap_err().message(), "Invalid dice-pool format 5x12");
    assert_eq!(
        DicePool::from_str("ad3").unwrap_err().message(),
        "Invalid dice-pool format ad3; N is not a valid u8"
    );
    assert_eq!(
        DicePool::from_str("3d-1").unwrap_err().message(),
        "Invalid dice-pool format 3d-1; n is not a valid u8"
    );
}

#[test]
fn dice_pool_roundtrip() {
    for n in 0..=255u8 {
        for m in 0..=255u8 {
            assert_eq!(DicePool::from_str(&format!("{}d{}", n, m)).unwrap().pool(), (n, m));
        }
    }
}

#[test]
fn do_rolls_on_pools() {
    let cmd = SubcommandRoll::DicePools { pools: vec![DicePool::from_str("2d6").unwrap()] };
    assert!(cmd.do_rolls().is_ok());
}

#[test]
fn roll_requests() {
    let p = parse_pools("advantage:3  proficiency\tboost:0").unwrap();
    assert_eq!(p, vec![("advantage".to_string(), 3), ("proficiency".to_string(), 1), ("boost".to_string(), 0)]);
    assert_eq!(parse_pools("a:x"), Err(IntErrorKind::InvalidDigit));
    assert_eq!(parse_pools("a:1 b:"), Err(IntErrorKind::Empty));
    assert_eq!(parse_pools("a:300 b:x"), Err(IntErrorKind::PosOverflow));
    assert_eq!(parse_pools("a:2:3"), Err(IntErrorKind::InvalidDigit));
    assert_eq!(parse_pools(""), Ok(vec![]));
    let q = parse_roll_request("Advantage:2 BOOST").unwrap();
    assert_eq!(q, vec![("advantage".to_string(), 2), ("boost".to_string(), 1)]);
}

#[test]
fn log_text() {
    assert_eq!(LogType::Info.prefix(), "[INFO]");
    assert_eq!(LogType::Debug.prefix(), "[DEBUG]");
    assert_eq!(LogType::Warn.prefix(), "[WARN]");
    assert_eq!(LogType::Error.prefix(), "[ERROR]");
    let ctx = LogContext::new(&["DISCORD", "ROLL"]);
    assert_eq!(ctx.as_str(), "[DISCORD][ROLL]");
    assert_eq!(LogContext::new(&[]).as_str(), "");
    assert_eq!(ctx.log_line("[t]", &LogType::Warn, "hi"), "[t][DISCORD][ROLL][WARN]: hi");
    assert_eq!(log_line("[t]", &LogType::Info, "hi"), "[t][INFO]hi");
}

#[test]
fn log_context_concat() {
    let a = LogContext::new(&["A"]);
    let b = LogContext::new(&["B", "C"]);
    let ab = LogContext::new(&["A", "B", "C"]);
    assert_eq!(format!("{}{}", a.as_str(), b.as_str()), ab.as_str());
}

#[test]
fn command_split() {
    let (c, r) = split_command("/roll advantage:2 boost");
    assert_eq!((c.as_str(), r.as_str()), ("/roll", "advantage:2 boost"));
    let (c, r) = split_command("/roll");
    assert_eq!((c.as_str(), r.as_str()), ("/roll", ""));
    let (c, r) = split_command(" x");
    assert_eq!((c.as_str(), r.as_str()), ("", "x"));
    let msg = "/roll  a";
    let (c, r) = split_command(msg);
    assert_eq!(format!("{} {}", c, r), msg);
}

#[test]
fn command_routing() {
    let mut sets = CommandSets::new();
    sets.add_command_set(CommandSet::new("/").add_command("roll").add_command("help"));
    sets.add_command_set(CommandSet::new("!").add_command("roll"));
    let r = sets.route("/roll");
    assert_eq!(r, vec![("/".to_string(), "roll".to_string())]);
    assert!(sets.route("/dance").is_empty());
    assert!(sets.route("roll").is_empty());
    let set = CommandSet::new("/").add_command("roll").add_command("roll");
    assert!(set.has_command(&"roll".to_string()));
    assert!(!set.has_command(&"help".to_string()));
    sets.add_command_set(CommandSet::new("/").add_command("dance"));
    assert!(sets.route("/roll").is_empty());
    assert_eq!(sets.route("/dance"), vec![("/".to_string(), "dance".to_string())]);
    assert_eq!(sets.route("!roll"), vec![("!".to_string(), "roll".to_string())]);
}

#[test]
fn auth_token() {
    let vars = vec![("A".to_string(), "1".to_string()), ("DISCORD_AUTH_TOKEN".to_string(), "tok".to_string())];
    assert_eq!(required_auth_token(&vars), Ok("tok".to_string()));
    assert_eq!(
        required_auth_token(&vec![]),
        Err("Missing environment variable 'DISCORD_AUTH_TOKEN'; Reason needed: Connecting to discord".to_string())
    );
}

#[test]
fn path_choice() {
    assert_eq!(path_in_cwd_or_exedir(Some(true), Some(true)), Some(PathChoice::ExeSibling));
    assert_eq!(path_in_cwd_or_exedir(Some(false), Some(true)), Some(PathChoice::CwdChild));
    assert_eq!(path_in_cwd_or_exedir(None, Some(true)), Some(PathChoice::CwdChild));
    assert_eq!(path_in_cwd_or_exedir(Some(false), None), None);
    assert_eq!(
        not_found_message("tables/csv/kinds.csv"),
        "Failed to find 'tables/csv/kinds.csv' relative to chronobot's exe or the current working directory"
    );
}

#[test]
fn column_filter() {
    let name = vec![Some("str".to_string()), Some("dex".to_string()), Some("blade".to_string()), None];
    let value = vec![Some("stat".to_string()), Some("stat".to_string()), Some("item".to_string()), None];
    assert_eq!(column_a_where_column_b_is(&name, &value, "stat"), vec!["str".to_string(), "dex".to_string()]);
    assert!(column_a_where_column_b_is(&name, &value, "none").is_empty());
}

#[test]
fn sanitizing_names() {
    assert_eq!(sanitize_name("Vec < u8 >_0".to_string()), "Vec___u8___0");
    assert_eq!(sanitize_name("é".to_string()), "__");
    assert_eq!(sanitize_name("a€".to_string()), "a___");
    let once = sanitize_name("Option<&'static str> 1".to_string());
    assert_eq!(sanitize_name(once.clone()), once);
}

#[test]
fn sanitized_name_bytes() {
    let s = "Vec<u8> _0".to_string();
    let r = sanitize_name(s.clone());
    assert_eq!(r, "Vec_u8___0");
    assert_eq!(r.len(), s.len());
    let s = "&'a [é€𝄞]".to_string();
    let r = sanitize_name(s.clone());
    assert_eq!(r.len(), s.len());
    for (a, b) in s.as_bytes().iter().zip(r.as_bytes()) {
        if a.is_ascii_alphanumeric() || *a == b'_' {
            assert_eq!(a, b);
        } else {
            assert_eq!(*b, b'_');
        }
    }
}

#[test]
fn path_components() {
    let p = PathComponents(&["harmony_autonomy", "delegate"]);
    assert!(p.matches(&vec!["harmony_autonomy".to_string(), "delegate".to_string()]));
    assert!(!p.matches(&vec!["delegate".to_string()]));
    assert!(!p.matches(&vec!["harmony_autonomy".to_string(), "other".to_string()]));
}

#[test]
fn raw_command_arguments() {
    assert_eq!(command_arguments("/roll dice-pools 5d12  2d20", Some("/")), vec!["roll", "dice-pools", "5d12", "2d20"]);
    assert_eq!(command_arguments("roll agent", Some("/")), vec!["roll", "agent"]);
    assert_eq!(command_arguments("/roll agent", None), vec!["/roll", "agent"]);
    assert_eq!(command_arguments("/ roll", Some("/")), vec!["roll"]);
    assert!(command_arguments("   ", None).is_empty());
}

#[test]
fn command_arguments_split_at_unicode_whitespace() {
    assert_eq!(command_arguments("a\u{A0}b", None), vec!["a", "b"]);
    assert_eq!(command_arguments("/roll\u{3000}agent\u{2003}x\u{85}", Some("/")), vec!["roll", "agent", "x"]);
    assert_eq!(command_arguments("a\u{B}b\u{200B}c", None), vec!["a", "b\u{200B}c"]);
}

fn path(segments: &[&str]) -> Vec<String> {
    segments.iter().map(|s| s.to_string()).collect()
}

fn variant(args: Vec<Option<Vec<String>>>, fields: FieldsModel) -> VariantModel {
    VariantModel { ident: "A".to_string(), delegate_args: args, fields }
}

#[test]
fn delegate_from_attribute() {
    let v = variant(vec![None, Some(path(&["func_a"])), Some(path(&["func_b"]))], FieldsModel::Unit);
    let d = parse_fields(&v).unwrap();
    assert_eq!(d.ident, "A");
    assert_eq!(d.delegate, path(&["func_a"]));
    assert!(d.named_fields.is_empty());

    let v = variant(
        vec![Some(path(&["m", "run"]))],
        FieldsModel::Unnamed(vec![Some(path(&["Agent"])), None]),
    );
    let d = parse_fields(&v).unwrap();
    assert_eq!(d.delegate, path(&["m", "run"]));
    assert_eq!(d.named_fields, vec![0, 1]);
}

#[test]
fn delegate_from_first_field() {
    let v = variant(
        vec![None],
        FieldsModel::Unnamed(vec![Some(path(&["commands", "Roll"])), Some(path(&["u8"])), None]),
    );
    let d = parse_fields(&v).unwrap();
    assert_eq!(d.delegate, path(&["commands", "Roll"]));
    assert_eq!(d.named_fields, vec![0, 1]);

    let v = variant(vec![], FieldsModel::Unnamed(vec![None, Some(path(&["u8"]))]));
    assert_eq!(parse_fields(&v).err(), Some(VariantError::InvalidDelegateArgument));
}

#[test]
fn variants_without_delegate() {
    assert_eq!(parse_fields(&variant(vec![], FieldsModel::Unit)).err(), Some(VariantError::UnitWithoutDelegate));
    assert_eq!(parse_fields(&variant(vec![None], FieldsModel::Unit)).err(), Some(VariantError::UnitWithoutDelegate));
    assert_eq!(parse_fields(&variant(vec![], FieldsModel::Named)).err(), Some(VariantError::NotATupleVariant));
    assert_eq!(
        parse_fields(&variant(vec![Some(path(&["f"]))], FieldsModel::Named)).err(),
        Some(VariantError::NotATupleVariant)
    );
    assert_eq!(
        parse_fields(&variant(vec![], FieldsModel::Unnamed(vec![]))).err(),
        Some(VariantError::NotATupleVariant)
    );
    let d = parse_fields(&variant(vec![Some(path(&["f"]))], FieldsModel::Unnamed(vec![]))).unwrap();
    assert!(d.named_fields.is_empty());
}

#[test]
fn delegate_attribute_paths() {
    let attr = |p: &[&str], is_list: bool, arg: Option<&[&str]>| AttributeModel {
        path: path(p),
        is_list,
        argument: arg.map(path),
    };
    let attrs = vec![
        attr(&["doc"], true, Some(&["x"])),
        attr(&["delegate"], false, Some(&["y"])),
        attr(&["delegate"], true, None),
        attr(&["harmony_autonomy", "delegate"], true, Some(&["z"])),
        attr(&["other", "delegate"], true, Some(&["w"])),
    ];
    assert_eq!(delegate_args(&attrs), vec![None, Some(path(&["z"]))]);
}

#[test]
fn variants_in_order() {
    let ok = variant(vec![Some(path(&["f"]))], FieldsModel::Unit);
    let tuple = variant(vec![], FieldsModel::Unnamed(vec![Some(path(&["Roll"]))]));
    let ds = parse_variants(&vec![ok, tuple]).unwrap();
    assert_eq!(ds.len(), 2);
    assert_eq!(ds[0].delegate, path(&["f"]));
    assert_eq!(ds[1].delegate, path(&["Roll"]));
    assert!(ds[1].named_fields.is_empty());

    let vs = vec![
        variant(vec![Some(path(&["f"]))], FieldsModel::Unit),
        variant(vec![], FieldsModel::Named),
        variant(vec![], FieldsModel::Unit),
    ];
    assert_eq!(parse_variants(&vs).err(), Some(VariantError::NotATupleVariant));
    assert!(parse_variants(&vec![]).unwrap().is_empty());
}

fn field(ident: Option<&str>, subcommand: bool) -> FieldModel {
    FieldModel { ident: ident.map(|s| s.to_string()), subcommand }
}

#[test]
fn subcommand_fields() {
    let fs = vec![field(Some("a"), false), field(Some("cmd"), true), field(None, true)];
    assert_eq!(find_subcommands(&fs), vec![Member::Named("cmd".to_string()), Member::Unnamed(2)]);
    assert_eq!(subcommand_member(&fs), Err(ContextError::ManySubcommands));
    let fs = vec![field(None, false), field(None, true)];
    assert_eq!(subcommand_member(&fs), Ok(Member::Unnamed(1)));
    assert_eq!(subcommand_member(&vec![field(Some("a"), false)]), Err(ContextError::NoSubcommand));
    assert_eq!(subcommand_member(&vec![]), Err(ContextError::NoSubcommand));
}

#[test]
fn derive_error_messages() {
    assert_eq!(
        ContextError::NoSubcommand.message(),
        "could not find field annotated with `#[command(subcommand)]`"
    );
    assert_eq!(
        ContextError::ManySubcommands.message(),
        "It is illegal to annotate more than one field with `#[command(subcommand)]`"
    );
    assert_eq!(
        VariantError::UnitWithoutDelegate.message(),
        "enums derived with `#[derive(CommandSet)]` must have their unit-variants annotated with `#[delegate(...)]`"
    );
    assert_eq!(VariantError::InvalidDelegateArgument.message(), "Invalid `#[delegate(...)]` argument");
    assert_eq!(
        VariantError::NotATupleVariant.message(),
        "if an enum is derived with `#[derive(CommandSet)]`, and a variant isn't annotated with `#[delegate(...)]`, it must be a tuple-variant (unnamed field) with at least one member"
    );
    assert_eq!(DeriveError::NotAnEnum.message(), "`#[derive(CommandSet)]` only supports enums");
    assert_eq!(
        DeriveError::Variant(VariantError::InvalidDelegateArgument).message(),
        "Invalid `#[delegate(...)]` argument"
    );
}

#[test]
fn derive_for_enums_only() {
    assert_eq!(derive_variants(&DataModel::NotAnEnum).err(), Some(DeriveError::NotAnEnum));
    let vs = vec![variant(vec![Some(path(&["f"]))], FieldsModel::Unit), variant(vec![], FieldsModel::Unit)];
    assert_eq!(
        derive_variants(&DataModel::Enum(vs)).err(),
        Some(DeriveError::Variant(VariantError::UnitWithoutDelegate))
    );
    let vs = vec![variant(vec![], FieldsModel::Unnamed(vec![Some(path(&["Roll"])), None]))];
    let ds = derive_variants(&DataModel::Enum(vs)).unwrap();
    assert_eq!(ds[0].delegate, path(&["Roll"]));
    assert_eq!(ds[0].named_fields, vec![0]);
}

#[test]
fn names_of_fields() {
    assert_eq!(field_name(3, &Some("count".to_string()), "u8"), "count");
    assert_eq!(field_name(0, &None, "MyType"), "MyType_0".to_case(Case::Snake));
    assert_eq!(field_name(0, &None, "MyType"), "my_type_0");
    assert_eq!(field_name(2, &None, "Vec < u8 >"), "Vec___u8___2".to_case(Case::Snake));
    assert_eq!(field_name(12, &None, "u8"), "u8_12".to_case(Case::Snake));
    let texts = vec!["Roll".to_string(), "u8".to_string(), "Option < String >".to_string()];
    assert_eq!(
        field_names(&texts, 1),
        vec!["u8_0".to_case(Case::Snake), "Option___String___1".to_case(Case::Snake)]
    );
    assert_eq!(field_names(&texts, 3), Vec::<String>::new());
    assert_eq!(field_names(&texts, 0).len(), 3);
}

fn pair(k: &str, v: &str) -> (String, String) {
    (k.to_string(), v.to_string())
}

#[test]
fn env_entries_in_order() {
    let mut vars = vec![pair("A", "1"), pair("B", "2")];
    add_env_entries(&mut vars, vec![pair("B", "3"), pair("C", "4"), pair("B", "5")]);
    assert_eq!(vars, vec![pair("A", "1"), pair("B", "2"), pair("B", "3"), pair("C", "4"), pair("B", "5")]);

    let mut vars = vec![pair("A", "1")];
    let r = apply_env_entries(&mut vars, (vec![pair("X", "y")], Some("bad line".to_string())));
    assert_eq!(r, Err("bad line".to_string()));
    assert_eq!(vars, vec![pair("A", "1"), pair("X", "y")]);
    assert_eq!(apply_env_entries(&mut vars, (vec![], None)), Ok(()));
}

#[test]
fn env_file_text() {
    let mut vars = vec![];
    let text = "# the bot\nDISCORD_AUTH_TOKEN=abc\nNAME='two words'\nDISCORD_AUTH_TOKEN=\"def\"\n";
    assert_eq!(load(&mut vars, text), Ok(()));
    assert_eq!(
        vars,
        vec![pair("DISCORD_AUTH_TOKEN", "abc"), pair("NAME", "two words"), pair("DISCORD_AUTH_TOKEN", "def")]
    );
    assert_eq!(required_auth_token(&vars), Ok("def".to_string()));

    let mut vars = vec![pair("KEEP", "1")];
    let r = load(&mut vars, "A=1\nB C\nD=2\n");
    assert!(r.is_err());
    assert_eq!(vars, vec![pair("KEEP", "1"), pair("A", "1")]);
}

#[test]
fn roll_messages() {
    assert!(roll_message("").is_none());
    assert_eq!(roll_message("Boost:2").unwrap().unwrap(), vec![("boost".to_string(), 2)]);
    assert_eq!(roll_message(" ").unwrap().unwrap(), vec![]);
    assert_eq!(roll_message("a:x").unwrap().err(), Some(IntErrorKind::InvalidDigit));
}
