//! Tests for the numeric literal parsers, the operation-token grammar,
//! and the command-line front-end.

use uvt::data::ArgOption;
use uvt::data::OperationType;
use uvt::error::AppError;
use uvt::parse::filter_tokens;
use uvt::parse::parse_args;
use uvt::parse::parse_arg_option;
use uvt::parse::parse_operation;
use uvt::parse::parse_value_dec;
use uvt::parse::parse_value_hex;

fn chars(s: &str) -> Vec<char> {
    s.chars().collect()
}

#[test]
fn dec_recovers_exact_values() {
    assert_eq!(parse_value_dec(&chars("0")), Ok(0));
    assert_eq!(parse_value_dec(&chars("123")), Ok(123));
    assert_eq!(parse_value_dec(&chars("007")), Ok(7));
    assert_eq!(parse_value_dec(&chars("18446744073709551615")), Ok(u64::MAX));
}

#[test]
fn dec_rejects_non_digits() {
    assert_eq!(parse_value_dec(&chars("12a")), Err(AppError::ArgNumDec(chars("12a"))));
    assert_eq!(parse_value_dec(&chars("-3")), Err(AppError::ArgNumDec(chars("-3"))));
    assert_eq!(parse_value_dec(&chars("0x10")), Err(AppError::ArgNumDec(chars("0x10"))));
}

#[test]
fn dec_empty_input_is_zero() {
    assert_eq!(parse_value_dec(&chars("")), Ok(0));
}

#[test]
fn hex_recovers_exact_values() {
    assert_eq!(parse_value_hex(&chars("0x0")), Ok(0));
    assert_eq!(parse_value_hex(&chars("0x1f")), Ok(0x1f));
    assert_eq!(parse_value_hex(&chars("0X10")), Ok(16));
    assert_eq!(parse_value_hex(&chars("0xDeadBeef")), Ok(0xdead_beef));
    assert_eq!(parse_value_hex(&chars("0xffffffffffffffff")), Ok(u64::MAX));
}

#[test]
fn hex_requires_prefix() {
    assert_eq!(parse_value_hex(&chars("10")), Err(AppError::ArgNumHexPrefix(chars("10"))));
    assert_eq!(
        parse_value_hex(&chars("1x00")),
        Err(AppError::ArgNumHexPrefix(chars("1x00")))
    );
}

#[test]
fn hex_short_input_is_premature_end() {
    assert_eq!(parse_value_hex(&chars("")), Err(AppError::ArgMore(chars(""))));
    assert_eq!(parse_value_hex(&chars("0")), Err(AppError::ArgMore(chars("0"))));
}

#[test]
fn hex_rejects_bad_digits() {
    assert_eq!(parse_value_hex(&chars("0x12g4")), Err(AppError::ArgNumHex(chars("0x12g4"))));
}

#[test]
fn hex_thirty_six_digits_parse_and_thirty_seven_fail() {
    // Thirty-six digits whose leading twenty are zero: the value is exact.
    let ok = format!("0x{}{}", "0".repeat(20), "123456789abcdef0");
    assert_eq!(parse_value_hex(&chars(&ok)), Ok(0x1234_5678_9abc_def0));
    let long = format!("0x{}", "1".repeat(37));
    assert_eq!(
        parse_value_hex(&chars(&long)),
        Err(AppError::ArgSizeLimit(chars(&long)))
    );
}

#[test]
fn read_token_parses() {
    let op = parse_operation(&chars("Lang:0x00")).unwrap();
    assert_eq!(op.target.name, chars("Lang"));
    assert_eq!(op.target.id, None);
    assert_eq!(op.target.offset, 0);
    assert_eq!(op.target.size, 1);
    assert_eq!(op.action, OperationType::Get);
}

#[test]
fn write_token_parses_and_validates() {
    let op = parse_operation(&chars("Lang:0x00(4)=0x01020304")).unwrap();
    assert_eq!(op.target.name, chars("Lang"));
    assert_eq!(op.target.offset, 0);
    assert_eq!(op.target.size, 4);
    assert_eq!(op.action, OperationType::Write(0x01020304));
    assert_eq!(op.validate(), Ok(()));
}

#[test]
fn identifier_in_brackets_parses() {
    let op = parse_operation(&chars("Lang(2):0x00")).unwrap();
    assert_eq!(op.target.id, Some(2));
    assert_eq!(op.target.name, chars("Lang"));
}

#[test]
fn oversized_write_value_fails_validation() {
    let op = parse_operation(&chars("Foo:0x00(1)=0x0100")).unwrap();
    assert_eq!(op.validate(), Err(AppError::ArgSizeMismatch(0x100, 1)));
}

#[test]
fn boundary_write_values_validate() {
    let op = parse_operation(&chars("Foo:0x00(1)=0xff")).unwrap();
    assert_eq!(op.validate(), Ok(()));
    let op = parse_operation(&chars("Foo:0x00(8)=0xffffffffffffffff")).unwrap();
    assert_eq!(op.validate(), Ok(()));
}

#[test]
fn token_grammar_errors() {
    assert_eq!(parse_operation(&chars("Lang")), Err(AppError::ArgPos));
    assert_eq!(parse_operation(&chars("a:b:c")), Err(AppError::ArgPos));
    assert_eq!(parse_operation(&chars("Lang(1(2):0x0")), Err(AppError::ArgVarBktL));
    assert_eq!(parse_operation(&chars("Lang(2:0x0")), Err(AppError::ArgVarBktR));
    assert_eq!(parse_operation(&chars("Lang:0x0(4(5)=0x1")), Err(AppError::ArgPosBktL));
    assert_eq!(parse_operation(&chars("Lang:0x0(4=0x1")), Err(AppError::ArgPosBktR));
    assert_eq!(parse_operation(&chars("a:0x0=0x1=0x2")), Err(AppError::ArgAss));
}

#[test]
fn offset_is_hex_by_convention_and_decimal_still_works() {
    let op = parse_operation(&chars("A:0x10")).unwrap();
    assert_eq!(op.target.offset, 16);
    // Without the prefix the hexadecimal attempt fails and the numeral
    // parses as decimal on the second attempt.
    let op = parse_operation(&chars("A:10")).unwrap();
    assert_eq!(op.target.offset, 10);
    // Unprefixed hex digits fail both attempts; the decimal error stands.
    assert_eq!(
        parse_operation(&chars("A:1f")),
        Err(AppError::ArgNumDec(chars("1f")))
    );
}

#[test]
fn option_tokens_short_and_long() {
    assert_eq!(parse_arg_option(&chars("-f")), Ok(ArgOption::Force));
    assert_eq!(parse_arg_option(&chars("--force")), Ok(ArgOption::Force));
    assert_eq!(parse_arg_option(&chars("-r")), Ok(ArgOption::Restart));
    assert_eq!(parse_arg_option(&chars("--restart")), Ok(ArgOption::Restart));
    assert_eq!(parse_arg_option(&chars("-s")), Ok(ArgOption::Simulate));
    assert_eq!(parse_arg_option(&chars("--simulate")), Ok(ArgOption::Simulate));
    assert_eq!(parse_arg_option(&chars("-h")), Ok(ArgOption::Usage));
    assert_eq!(parse_arg_option(&chars("--help")), Ok(ArgOption::Usage));
    assert_eq!(parse_arg_option(&chars("-z")), Err(AppError::ArgOpt));
}

#[test]
fn empty_token_list_is_the_fallback_condition() {
    assert_eq!(parse_args(vec![]), Err(AppError::ArgNone));
}

#[test]
fn args_collect_operations_and_flags() {
    let args = parse_args(vec![chars("-f"), chars("Lang:0x00"), chars("A:0x04(2)=0x1234")])
        .unwrap();
    assert!(args.force && !args.restart && !args.simulate && !args.usage);
    assert_eq!(args.op.len(), 2);
    assert_eq!(args.op[0].target.name, chars("Lang"));
    assert_eq!(args.op[1].action, OperationType::Write(0x1234));
}

#[test]
fn unrecognized_token_error_carries_the_token() {
    let r = parse_args(vec![chars("bogus")]);
    match r {
        Err(AppError::Arg(token, cause)) => {
            assert_eq!(token, chars("bogus"));
            assert_eq!(*cause, AppError::ArgPos);
        },
        other => panic!("unexpected result: {other:?}"),
    }
}

#[test]
fn usage_skips_validation() {
    let args = parse_args(vec![chars("-h"), chars("Foo:0x00(1)=0x0100")]).unwrap();
    assert!(args.usage);
    assert_eq!(args.op.len(), 1);
}

#[test]
fn oversized_write_aborts_argument_parsing() {
    let r = parse_args(vec![chars("Foo:0x00(1)=0x0100")]);
    assert_eq!(r, Err(AppError::ArgSizeMismatch(0x100, 1)));
}

#[test]
fn loader_tokens_are_filtered() {
    let kept = filter_tokens(vec![
        chars("\\EFI\\Tools\\uvt.efi"),
        chars("-f"),
        chars("Lang:0x00"),
        chars("junk"),
    ]);
    assert_eq!(kept, vec![chars("-f"), chars("Lang:0x00")]);
}
