//! Tests for the script front-end: line cleaning, classification,
//! directives, definitions, references, and resolution.

use uvt::data::InputEntry;
use uvt::data::OperationType;
use uvt::error::AppError;
use uvt::parse::parse_input;
use uvt::parse::parse_input_option;
use uvt::parse::parse_target_def;
use uvt::parse::parse_target_ref;

fn chars(s: &str) -> Vec<char> {
    s.chars().collect()
}

#[test]
fn reference_resolves_against_definition() {
    let args = parse_input(chars("Alias,Lang:0x00(4)\n@Alias=0x01020304")).unwrap();
    assert_eq!(args.op.len(), 1);
    let op = &args.op[0];
    assert_eq!(op.target.name, chars("Lang"));
    assert_eq!(op.target.offset, 0);
    assert_eq!(op.target.size, 4);
    assert_eq!(op.action, OperationType::Write(0x01020304));
}

#[test]
fn definition_after_reference_resolves_too() {
    let forward = parse_input(chars("@Alias=0x01020304\nAlias,Lang:0x00(4)")).unwrap();
    let backward = parse_input(chars("Alias,Lang:0x00(4)\n@Alias=0x01020304")).unwrap();
    assert_eq!(forward, backward);
}

#[test]
fn unresolved_reference_fails() {
    assert_eq!(
        parse_input(chars("@Unknown")),
        Err(AppError::InputRefNone(chars("Unknown")))
    );
}

#[test]
fn comment_and_blank_lines_vanish() {
    let args = parse_input(chars("# just a comment")).unwrap();
    assert_eq!(args.op.len(), 0);
    let args = parse_input(chars("   \t  \n# just a comment\n\n")).unwrap();
    assert_eq!(args.op.len(), 0);
    assert!(!args.force && !args.restart && !args.simulate && !args.usage);
}

#[test]
fn empty_input_is_the_nothing_to_do_condition() {
    assert_eq!(parse_input(chars("")), Err(AppError::InputNone));
}

#[test]
fn trailing_comment_is_stripped() {
    let args = parse_input(chars("Lang:0x00 # read the language byte")).unwrap();
    assert_eq!(args.op.len(), 1);
    assert_eq!(args.op[0].target.name, chars("Lang"));
    assert_eq!(args.op[0].action, OperationType::Get);
}

#[test]
fn directives_set_flags() {
    let args = parse_input(chars("!force\n!simulate\nLang:0x00")).unwrap();
    assert!(args.force && args.simulate && !args.restart && !args.usage);
    let args = parse_input(chars("!restart\nLang:0x00")).unwrap();
    assert!(args.restart);
}

#[test]
fn unknown_directive_word_fails() {
    assert_eq!(
        parse_input_option(&chars("!bogus")),
        Err(AppError::InputOpt(chars("!bogus")))
    );
    // Through the whole front-end the line matches no entry form, and the
    // last attempt's error, the reference parser's, stands.
    assert_eq!(
        parse_input(chars("!bogus")),
        Err(AppError::InputRef(chars("!bogus")))
    );
}

#[test]
fn definition_may_not_carry_a_value() {
    assert_eq!(
        parse_target_def(&chars("X,Lang:0x00=0x1")),
        Err(AppError::InputDefSet(chars("Lang:0x00=0x1")))
    );
}

#[test]
fn definition_sides_are_trimmed() {
    let entry = parse_target_def(&chars("  X ,  Lang:0x00(2) ")).unwrap();
    match entry {
        InputEntry::TargetDefinition { name, target } => {
            assert_eq!(name, chars("X"));
            assert_eq!(target.name, chars("Lang"));
            assert_eq!(target.size, 2);
        },
        other => panic!("unexpected entry: {other:?}"),
    }
}

#[test]
fn reference_forms() {
    let entry = parse_target_ref(&chars("@X")).unwrap();
    assert_eq!(
        entry,
        InputEntry::TargetReference { name: chars("X"), action: OperationType::Get }
    );
    let entry = parse_target_ref(&chars("@X=0xff")).unwrap();
    assert_eq!(
        entry,
        InputEntry::TargetReference { name: chars("X"), action: OperationType::Write(0xff) }
    );
    assert_eq!(
        parse_target_ref(&chars("X")),
        Err(AppError::InputRef(chars("X")))
    );
}

#[test]
fn direct_operations_come_before_reference_derived_ones() {
    let args = parse_input(chars("@A\nB:0x01\nA,C:0x02")).unwrap();
    assert_eq!(args.op.len(), 2);
    assert_eq!(args.op[0].target.name, chars("B"));
    assert_eq!(args.op[1].target.name, chars("C"));
}

#[test]
fn duplicate_alias_first_definition_wins() {
    let args = parse_input(chars("A,X:0x00\nA,Y:0x01\n@A")).unwrap();
    assert_eq!(args.op.len(), 1);
    assert_eq!(args.op[0].target.name, chars("X"));
}

#[test]
fn oversized_write_in_script_fails_validation() {
    assert_eq!(
        parse_input(chars("A:0x00(1)=0x0100")),
        Err(AppError::ArgSizeMismatch(0x100, 1))
    );
}
