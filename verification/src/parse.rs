//! Parsing: numeric literals, the operation-token grammar, the
//! command-line front-end and the script front-end.
//!
//! Each executable parser is specified against a spec-level parsing
//! function over character sequences; the spec functions together form the
//! mathematical definition of the grammar.

use vstd::prelude::*;
use vstd::arithmetic::power2::pow2;
use vstd::arithmetic::div_mod::lemma_add_mod_noop;
use vstd::arithmetic::div_mod::lemma_mul_mod_noop_left;
use vstd::arithmetic::div_mod::lemma_small_mod;
use crate::data::Arg;
use crate::data::ArgOperation;
use crate::data::ArgOption;
use crate::data::Args;
use crate::data::InputEntry;
use crate::data::OperationTarget;
use crate::data::OperationType;
use crate::data::SpecArg;
use crate::data::SpecArgs;
use crate::data::SpecEntry;
use crate::data::SpecOperation;
use crate::data::SpecTarget;
use crate::data::dec_render;
use crate::data::digit_char;
use crate::data::hex_render;
use crate::data::le_bytes_spec;
use crate::data::le_bytes_value;
use crate::data::lemma_le_bytes_round_trip;
use crate::data::op_fits;
use crate::data::render_with_value;
use crate::data::validate_args_spec;
use crate::error::AppError;
use crate::error::SpecError;
use crate::text;

verus! {

/// One more than the largest value a 64-bit accumulator holds: numeric
/// literals accumulate modulo this bound.
pub open spec fn accum_mod() -> nat {
    0x10000000000000000
}

/// Whether the character is an ASCII decimal digit.
pub open spec fn is_dec_digit(c: char) -> bool {
    48 <= c as u32 <= 57
}

/// The numeric value of a decimal digit.
pub open spec fn dec_digit_val(c: char) -> nat {
    (c as u32 - 48) as nat
}

/// Whether every character of `s` is a decimal digit.
pub open spec fn all_dec_digits(s: Seq<char>) -> bool {
    forall|i: int| 0 <= i < s.len() ==> is_dec_digit(#[trigger] s[i])
}

/// The integer a digit string denotes in base ten.
pub open spec fn dec_value(s: Seq<char>) -> nat
    decreases s.len(),
{
    if s.len() == 0 {
        0
    } else {
        dec_value(s.drop_last()) * 10 + dec_digit_val(s.last())
    }
}

/// What parsing a decimal literal yields: the denoted integer, reduced to
/// a 64-bit accumulator, or a format error carrying the offending text.
pub open spec fn parse_dec_spec(s: Seq<char>) -> Result<u64, SpecError> {
    if all_dec_digits(s) {
        Ok((dec_value(s) % accum_mod()) as u64)
    } else {
        Err(SpecError::ArgNumDec(s))
    }
}

/// Whether the character is an ASCII hexadecimal digit.
pub open spec fn is_hex_digit(c: char) -> bool {
    is_dec_digit(c) || 97 <= c as u32 <= 102 || 65 <= c as u32 <= 70
}

/// The numeric value of a hexadecimal digit.
pub open spec fn hex_digit_val(c: char) -> nat {
    if is_dec_digit(c) {
        (c as u32 - 48) as nat
    } else if 97 <= c as u32 <= 102 {
        (c as u32 - 87) as nat
    } else {
        (c as u32 - 55) as nat
    }
}

/// Whether every character of `s` is a hexadecimal digit.
pub open spec fn all_hex_digits(s: Seq<char>) -> bool {
    forall|i: int| 0 <= i < s.len() ==> is_hex_digit(#[trigger] s[i])
}

/// The integer a digit string denotes in base sixteen.
pub open spec fn hex_value(s: Seq<char>) -> nat
    decreases s.len(),
{
    if s.len() == 0 {
        0
    } else {
        hex_value(s.drop_last()) * 16 + hex_digit_val(s.last())
    }
}

/// Whether `s` starts with the hexadecimal prefix `0x` or `0X`.
pub open spec fn has_hex_prefix(s: Seq<char>) -> bool {
    s.len() >= 2 && s[0] == '0' && (s[1] == 'x' || s[1] == 'X')
}

/// The longest hexadecimal literal accepted, prefix included: a textual
/// guard, independent of the numeric value.
pub open spec fn hex_len_limit() -> int {
    38
}

/// What parsing a hexadecimal literal yields.  The prefix is checked
/// first, on the first two characters; a literal so short that they do not
/// exist is reported as exhausted input.
pub open spec fn parse_hex_spec(s: Seq<char>) -> Result<u64, SpecError> {
    if s.len() < 2 {
        Err(SpecError::ArgMore(s))
    } else if !has_hex_prefix(s) {
        Err(SpecError::ArgNumHexPrefix(s))
    } else if s.len() > hex_len_limit() {
        Err(SpecError::ArgSizeLimit(s))
    } else if !all_hex_digits(s.skip(2)) {
        Err(SpecError::ArgNumHex(s))
    } else {
        Ok((hex_value(s.skip(2)) % accum_mod()) as u64)
    }
}

/// A numeral where decimal is the convention: decimal tried first, then
/// hexadecimal; when both fail, the later attempt's error stands.
pub open spec fn parse_num_dec_first(s: Seq<char>) -> Result<u64, SpecError> {
    match parse_dec_spec(s) {
        Ok(v) => Ok(v),
        Err(_) => parse_hex_spec(s),
    }
}

/// A numeral where hexadecimal is the convention: hexadecimal tried
/// first, then decimal; when both fail, the later attempt's error stands.
pub open spec fn parse_num_hex_first(s: Seq<char>) -> Result<u64, SpecError> {
    match parse_hex_spec(s) {
        Ok(v) => Ok(v),
        Err(_) => parse_dec_spec(s),
    }
}

/// A decimal literal of value below 2^64 parses to exactly that value;
/// one holding any non-digit fails with the decimal format error.
pub proof fn lemma_parse_dec_exact(s: Seq<char>)
    ensures
        all_dec_digits(s) && dec_value(s) < accum_mod() ==> parse_dec_spec(s) == Ok::<
            u64,
            SpecError,
        >(dec_value(s) as u64),
        !all_dec_digits(s) ==> parse_dec_spec(s) == Err::<u64, SpecError>(
            SpecError::ArgNumDec(s),
        ),
{
    if all_dec_digits(s) && dec_value(s) < accum_mod() {
        lemma_small_mod(dec_value(s), accum_mod());
    }
}

/// A prefixed hexadecimal literal of up to 36 digits and value below 2^64
/// parses to exactly that value; 37 digits or more fail with the length
/// error; a missing prefix fails with the prefix error.
pub proof fn lemma_parse_hex_exact(s: Seq<char>)
    ensures
        has_hex_prefix(s) && s.len() <= hex_len_limit() && all_hex_digits(s.skip(2))
            && hex_value(s.skip(2)) < accum_mod() ==> parse_hex_spec(s) == Ok::<
            u64,
            SpecError,
        >(hex_value(s.skip(2)) as u64),
        has_hex_prefix(s) && s.len() > hex_len_limit() ==> parse_hex_spec(s) == Err::<
            u64,
            SpecError,
        >(SpecError::ArgSizeLimit(s)),
        s.len() >= 2 && !has_hex_prefix(s) ==> parse_hex_spec(s) == Err::<u64, SpecError>(
            SpecError::ArgNumHexPrefix(s),
        ),
{
    if has_hex_prefix(s) && s.len() <= hex_len_limit() && all_hex_digits(s.skip(2))
        && hex_value(s.skip(2)) < accum_mod() {
        lemma_small_mod(hex_value(s.skip(2)), accum_mod());
    }
}

/// Whether the character is an ASCII decimal digit.
fn is_dec_digit_exec(c: char) -> (r: bool)
    ensures
        r == is_dec_digit(c),
{
    let u = c as u32;
    48 <= u && u <= 57
}

/// Whether the character is an ASCII hexadecimal digit.
fn is_hex_digit_exec(c: char) -> (r: bool)
    ensures
        r == is_hex_digit(c),
{
    let u = c as u32;
    (48 <= u && u <= 57) || (97 <= u && u <= 102) || (65 <= u && u <= 70)
}

/// The numeric value of a hexadecimal digit.
fn hex_digit_val_exec(c: char) -> (r: u64)
    requires
        is_hex_digit(c),
    ensures
        r == hex_digit_val(c),
{
    let u = c as u32;
    if 48 <= u && u <= 57 {
        (u - 48) as u64
    } else if 97 <= u && u <= 102 {
        (u - 87) as u64
    } else {
        (u - 55) as u64
    }
}

/// One accumulation step stays congruent to the denoted value.
proof fn lemma_accum_step(acc: u64, val: nat, base: nat, d: nat)
    requires
        acc as nat == val % accum_mod(),
        1 <= base <= 16,
        d < base,
    ensures
        (((acc as nat) * base + d) % accum_mod()) as u64 as nat == (val * base + d)
            % accum_mod(),
{
    let m = accum_mod() as int;
    lemma_mul_mod_noop_left(val as int, base as int, m);
    lemma_add_mod_noop((val * base) as int, d as int, m);
    lemma_add_mod_noop((acc as nat * base) as int, d as int, m);
    lemma_small_mod(d, accum_mod());
}

/// Attempts to parse a decimal value.
pub fn parse_value_dec(value: &Vec<char>) -> (r: Result<u64, AppError>)
    ensures
        match r {
            Ok(v) => parse_dec_spec(value@) == Ok::<u64, SpecError>(v),
            Err(e) => parse_dec_spec(value@) == Err::<u64, SpecError>(e@),
        },
{
    let n = value.len();
    let mut acc: u64 = 0;
    let mut i: usize = 0;
    while i < n
        invariant
            i <= n == value@.len(),
            forall|j: int| 0 <= j < i ==> is_dec_digit(#[trigger] value@[j]),
            acc as nat == dec_value(value@.take(i as int)) % accum_mod(),
        decreases n - i,
    {
        let c = value[i];
        if !is_dec_digit_exec(c) {
            let t = text::copy_range(value, 0, n);
            proof {
                assert(t@ =~= value@);
            }
            return Err(AppError::ArgNumDec(t));
        }
        let d = (c as u32 - 48) as u64;
        proof {
            let p = value@.take(i as int);
            assert(value@.take(i + 1).drop_last() =~= p);
            assert(value@.take(i + 1).last() == value@[i as int]);
            lemma_accum_step(acc, dec_value(p), 10, dec_digit_val(c));
        }
        acc = acc.wrapping_mul(10).wrapping_add(d);
        i = i + 1;
    }
    proof {
        assert(value@.take(n as int) =~= value@);
    }
    Ok(acc)
}

/// Attempts to parse a hexadecimal value.
pub fn parse_value_hex(value: &Vec<char>) -> (r: Result<u64, AppError>)
    ensures
        match r {
            Ok(v) => parse_hex_spec(value@) == Ok::<u64, SpecError>(v),
            Err(e) => parse_hex_spec(value@) == Err::<u64, SpecError>(e@),
        },
{
    let n = value.len();
    if n < 2 {
        let t = text::copy_range(value, 0, n);
        proof {
            assert(t@ =~= value@);
        }
        return Err(AppError::ArgMore(t));
    }
    if !(value[0] == '0' && (value[1] == 'x' || value[1] == 'X')) {
        let t = text::copy_range(value, 0, n);
        proof {
            assert(t@ =~= value@);
        }
        return Err(AppError::ArgNumHexPrefix(t));
    }
    if n > 38 {
        let t = text::copy_range(value, 0, n);
        proof {
            assert(t@ =~= value@);
        }
        return Err(AppError::ArgSizeLimit(t));
    }
    let ghost digits = value@.skip(2);
    let mut acc: u64 = 0;
    let mut i: usize = 2;
    while i < n
        invariant
            2 <= i <= n == value@.len(),
            n <= 38,
            has_hex_prefix(value@),
            digits == value@.skip(2),
            forall|j: int| 0 <= j < i - 2 ==> is_hex_digit(#[trigger] digits[j]),
            acc as nat == hex_value(digits.take(i - 2)) % accum_mod(),
        decreases n - i,
    {
        let c = value[i];
        proof {
            assert(digits[i - 2] == value@[i as int]);
        }
        if !is_hex_digit_exec(c) {
            let t = text::copy_range(value, 0, n);
            proof {
                assert(t@ =~= value@);
            }
            return Err(AppError::ArgNumHex(t));
        }
        let d = hex_digit_val_exec(c);
        proof {
            let p = digits.take(i - 2);
            assert(digits.take(i - 1).drop_last() =~= p);
            assert(digits.take(i - 1).last() == digits[i - 2]);
            lemma_accum_step(acc, hex_value(p), 16, hex_digit_val(c));
        }
        acc = acc.wrapping_mul(16).wrapping_add(d);
        i = i + 1;
    }
    proof {
        assert(digits.take(n - 2) =~= digits);
    }
    Ok(acc)
}

/// What parsing the name part of a token yields: the variable name and
/// the optional bracketed identifier.  At most one opening bracket may
/// appear, and it must have a matching closing bracket at the end; the
/// identifier is a numeral, decimal by convention.
pub open spec fn parse_name_spec(p: Seq<char>) -> Result<(Seq<char>, Option<u64>), SpecError> {
    if !p.contains('(') {
        Ok((p, None))
    } else {
        let parts = text::split_spec(p, '(');
        if parts.len() != 2 {
            Err(SpecError::ArgVarBktL)
        } else {
            match text::strip_last_spec(parts[1], ')') {
                None => Err(SpecError::ArgVarBktR),
                Some(id_text) => match parse_num_dec_first(id_text) {
                    Err(e) => Err(e),
                    Ok(id) => Ok((parts[0], Some(id))),
                },
            }
        }
    }
}

/// What parsing the assignment clause of an offset part yields: the
/// remaining offset text and the action.  Exactly one assignment operator
/// is allowed; its right-hand side is a numeral, hexadecimal by
/// convention; without an assignment the action is a read.
pub open spec fn parse_action_spec(p: Seq<char>) -> Result<(Seq<char>, OperationType), SpecError> {
    if !p.contains('=') {
        Ok((p, OperationType::Get))
    } else {
        let parts = text::split_spec(p, '=');
        if parts.len() != 2 {
            Err(SpecError::ArgAss)
        } else {
            match parse_num_hex_first(parts[1]) {
                Err(e) => Err(e),
                Ok(v) => Ok((parts[0], OperationType::Write(v))),
            }
        }
    }
}

/// What parsing the bracketed size of an offset part yields: the
/// remaining offset text and the size, which defaults to one byte.
pub open spec fn parse_size_spec(p: Seq<char>) -> Result<(Seq<char>, u64), SpecError> {
    if !p.contains('(') {
        Ok((p, 1))
    } else {
        let parts = text::split_spec(p, '(');
        if parts.len() != 2 {
            Err(SpecError::ArgPosBktL)
        } else {
            match text::strip_last_spec(parts[1], ')') {
                None => Err(SpecError::ArgPosBktR),
                Some(size_text) => match parse_num_dec_first(size_text) {
                    Err(e) => Err(e),
                    Ok(size) => Ok((parts[0], size)),
                },
            }
        }
    }
}

/// What parsing one operation token yields.  The token splits at its one
/// offset indicator into a name part and an offset part; the name part
/// carries the optional identifier, the offset part the optional size and
/// the optional assignment; the offset numeral is hexadecimal by
/// convention.
pub open spec fn parse_operation_spec(s: Seq<char>) -> Result<SpecOperation, SpecError> {
    let pieces = text::split_spec(s, ':');
    if pieces.len() != 2 {
        Err(SpecError::ArgPos)
    } else {
        match parse_name_spec(pieces[0]) {
            Err(e) => Err(e),
            Ok((name, id)) => match parse_action_spec(pieces[1]) {
                Err(e) => Err(e),
                Ok((offset_text, action)) => match parse_size_spec(offset_text) {
                    Err(e) => Err(e),
                    Ok((offset_num, size)) => match parse_num_hex_first(offset_num) {
                        Err(e) => Err(e),
                        Ok(offset) => Ok(
                            SpecOperation {
                                action,
                                target: SpecTarget { id, name, offset, size },
                            },
                        ),
                    },
                },
            },
        }
    }
}

/// A numeral in a position where decimal is the convention: tries the
/// decimal parser, then the hexadecimal one; the later error stands.
pub fn parse_value_dec_or_hex(value: &Vec<char>) -> (r: Result<u64, AppError>)
    ensures
        match r {
            Ok(v) => parse_num_dec_first(value@) == Ok::<u64, SpecError>(v),
            Err(e) => parse_num_dec_first(value@) == Err::<u64, SpecError>(e@),
        },
{
    match parse_value_dec(value) {
        Ok(v) => Ok(v),
        Err(_) => parse_value_hex(value),
    }
}

/// A numeral in a position where hexadecimal is the convention: tries the
/// hexadecimal parser, then the decimal one; the later error stands.
pub fn parse_value_hex_or_dec(value: &Vec<char>) -> (r: Result<u64, AppError>)
    ensures
        match r {
            Ok(v) => parse_num_hex_first(value@) == Ok::<u64, SpecError>(v),
            Err(e) => parse_num_hex_first(value@) == Err::<u64, SpecError>(e@),
        },
{
    match parse_value_hex(value) {
        Ok(v) => Ok(v),
        Err(_) => parse_value_dec(value),
    }
}

/// Attempts to parse the operation type, and the new value to be set when
/// the token carries an assignment.
pub fn parse_operation_type(arg: &Vec<char>) -> (r: Result<(Vec<char>, OperationType), AppError>)
    ensures
        match r {
            Ok(p) => parse_action_spec(arg@) == Ok::<(Seq<char>, OperationType), SpecError>(
                (p.0@, p.1),
            ),
            Err(e) => parse_action_spec(arg@) == Err::<(Seq<char>, OperationType), SpecError>(
                e@,
            ),
        },
{
    if text::has(arg, '=') {
        let mut parts = text::split(arg, '=');
        if parts.len() != 2 {
            return Err(AppError::ArgAss);
        }
        proof {
            assert(parts@[0]@ == text::split_spec(arg@, '=')[0]);
            assert(parts@[1]@ == text::split_spec(arg@, '=')[1]);
        }
        let left = parts.swap_remove(0);
        let right = parts.swap_remove(0);
        match parse_value_hex_or_dec(&right) {
            Ok(v) => Ok((left, OperationType::Write(v))),
            Err(e) => Err(e),
        }
    } else {
        Ok((text::dup(arg), OperationType::Get))
    }
}

/// Attempts to parse an operation token: the name with its optional
/// identifier, then the action, then the optional size, then the offset.
pub fn parse_operation(arg: &Vec<char>) -> (r: Result<ArgOperation, AppError>)
    ensures
        match r {
            Ok(op) => parse_operation_spec(arg@) == Ok::<SpecOperation, SpecError>(op@),
            Err(e) => parse_operation_spec(arg@) == Err::<SpecOperation, SpecError>(e@),
        },
{
    let mut pieces = text::split(arg, ':');
    if pieces.len() != 2 {
        return Err(AppError::ArgPos);
    }
    proof {
        assert(pieces@[0]@ == text::split_spec(arg@, ':')[0]);
        assert(pieces@[1]@ == text::split_spec(arg@, ':')[1]);
    }
    let name_piece = pieces.swap_remove(0);
    let offset_piece = pieces.swap_remove(0);

    // The variable identifier: empty by default, defined in brackets.
    let mut id: Option<u64> = None;
    let name = if text::has(&name_piece, '(') {
        let mut parts = text::split(&name_piece, '(');
        if parts.len() != 2 {
            return Err(AppError::ArgVarBktL);
        }
        proof {
            assert(parts@[0]@ == text::split_spec(name_piece@, '(')[0]);
            assert(parts@[1]@ == text::split_spec(name_piece@, '(')[1]);
        }
        let id_text = match text::strip_last(&parts[1], ')') {
            Some(t) => t,
            None => {
                return Err(AppError::ArgVarBktR);
            },
        };
        match parse_value_dec_or_hex(&id_text) {
            Ok(v) => {
                id = Some(v);
            },
            Err(e) => {
                return Err(e);
            },
        }
        parts.swap_remove(0)
    } else {
        name_piece
    };

    // The operation type, and the new value for an assignment.
    let (offset_text, action) = match parse_operation_type(&offset_piece) {
        Ok(p) => p,
        Err(e) => {
            return Err(e);
        },
    };

    // The value size: a single byte by default, defined in brackets.
    let mut size: u64 = 1;
    let offset_num = if text::has(&offset_text, '(') {
        let mut parts = text::split(&offset_text, '(');
        if parts.len() != 2 {
            return Err(AppError::ArgPosBktL);
        }
        proof {
            assert(parts@[0]@ == text::split_spec(offset_text@, '(')[0]);
            assert(parts@[1]@ == text::split_spec(offset_text@, '(')[1]);
        }
        let size_text = match text::strip_last(&parts[1], ')') {
            Some(t) => t,
            None => {
                return Err(AppError::ArgPosBktR);
            },
        };
        match parse_value_dec_or_hex(&size_text) {
            Ok(v) => {
                size = v;
            },
            Err(e) => {
                return Err(e);
            },
        }
        parts.swap_remove(0)
    } else {
        offset_text
    };

    // The offset itself, hexadecimal by convention.
    let offset = match parse_value_hex_or_dec(&offset_num) {
        Ok(v) => v,
        Err(e) => {
            return Err(e);
        },
    };

    Ok(ArgOperation { action, target: OperationTarget { id, name, offset, size } })
}

/// The long option words, without their `--` prefix, and the script
/// directive words, which are the same three with no usage directive.
pub open spec fn word_force() -> Seq<char> {
    seq!['f', 'o', 'r', 'c', 'e']
}

pub open spec fn word_restart() -> Seq<char> {
    seq!['r', 'e', 's', 't', 'a', 'r', 't']
}

pub open spec fn word_simulate() -> Seq<char> {
    seq!['s', 'i', 'm', 'u', 'l', 'a', 't', 'e']
}

pub open spec fn word_help() -> Seq<char> {
    seq!['h', 'e', 'l', 'p']
}

/// What classifying a command-line option token yields: each flag has a
/// short spelling `-x` and a long spelling `--word`.
pub open spec fn parse_arg_option_spec(key: Seq<char>) -> Result<ArgOption, SpecError> {
    if key == seq!['-', 'f'] || key == seq!['-', '-'] + word_force() {
        Ok(ArgOption::Force)
    } else if key == seq!['-', 'r'] || key == seq!['-', '-'] + word_restart() {
        Ok(ArgOption::Restart)
    } else if key == seq!['-', 's'] || key == seq!['-', '-'] + word_simulate() {
        Ok(ArgOption::Simulate)
    } else if key == seq!['-', 'h'] || key == seq!['-', '-'] + word_help() {
        Ok(ArgOption::Usage)
    } else {
        Err(SpecError::ArgOpt)
    }
}

/// Builds the word `force`.
fn word_force_exec() -> (r: Vec<char>)
    ensures
        r@ == word_force(),
{
    let mut w: Vec<char> = Vec::new();
    w.push('f');
    w.push('o');
    w.push('r');
    w.push('c');
    w.push('e');
    proof {
        assert(w@ =~= word_force());
    }
    w
}

/// Builds the word `restart`.
fn word_restart_exec() -> (r: Vec<char>)
    ensures
        r@ == word_restart(),
{
    let mut w: Vec<char> = Vec::new();
    w.push('r');
    w.push('e');
    w.push('s');
    w.push('t');
    w.push('a');
    w.push('r');
    w.push('t');
    proof {
        assert(w@ =~= word_restart());
    }
    w
}

/// Builds the word `simulate`.
fn word_simulate_exec() -> (r: Vec<char>)
    ensures
        r@ == word_simulate(),
{
    let mut w: Vec<char> = Vec::new();
    w.push('s');
    w.push('i');
    w.push('m');
    w.push('u');
    w.push('l');
    w.push('a');
    w.push('t');
    w.push('e');
    proof {
        assert(w@ =~= word_simulate());
    }
    w
}

/// Builds the word `help`.
fn word_help_exec() -> (r: Vec<char>)
    ensures
        r@ == word_help(),
{
    let mut w: Vec<char> = Vec::new();
    w.push('h');
    w.push('e');
    w.push('l');
    w.push('p');
    proof {
        assert(w@ =~= word_help());
    }
    w
}

/// Prefixes a word with `--`.
fn long_opt(word: Vec<char>) -> (r: Vec<char>)
    ensures
        r@ == seq!['-', '-'] + word@,
{
    let mut w: Vec<char> = Vec::new();
    w.push('-');
    w.push('-');
    let mut word = word;
    w.append(&mut word);
    proof {
        assert(w@ =~= seq!['-', '-'] + w@.skip(2));
    }
    w
}

/// Attempts to classify a command-line token as an option flag.
pub fn parse_arg_option(key: &Vec<char>) -> (r: Result<ArgOption, AppError>)
    ensures
        match r {
            Ok(o) => parse_arg_option_spec(key@) == Ok::<ArgOption, SpecError>(o),
            Err(e) => parse_arg_option_spec(key@) == Err::<ArgOption, SpecError>(e@),
        },
{
    if key.len() == 2 && key[0] == '-' {
        let c = key[1];
        if c == 'f' {
            proof {
                assert(key@ =~= seq!['-', 'f']);
            }
            return Ok(ArgOption::Force);
        }
        if c == 'r' {
            proof {
                assert(key@ =~= seq!['-', 'r']);
            }
            return Ok(ArgOption::Restart);
        }
        if c == 's' {
            proof {
                assert(key@ =~= seq!['-', 's']);
            }
            return Ok(ArgOption::Simulate);
        }
        if c == 'h' {
            proof {
                assert(key@ =~= seq!['-', 'h']);
            }
            return Ok(ArgOption::Usage);
        }
    }
    let w = long_opt(word_force_exec());
    if text::eq_chars(key, &w) {
        return Ok(ArgOption::Force);
    }
    let w = long_opt(word_restart_exec());
    if text::eq_chars(key, &w) {
        return Ok(ArgOption::Restart);
    }
    let w = long_opt(word_simulate_exec());
    if text::eq_chars(key, &w) {
        return Ok(ArgOption::Simulate);
    }
    let w = long_opt(word_help_exec());
    if text::eq_chars(key, &w) {
        return Ok(ArgOption::Usage);
    }
    Err(AppError::ArgOpt)
}

/// What classifying one command-line token yields: an option flag, else
/// an operation; a token matching neither fails with the operation
/// parser's error, wrapped together with the token text.
pub open spec fn classify_arg_spec(t: Seq<char>) -> Result<SpecArg, SpecError> {
    match parse_arg_option_spec(t) {
        Ok(o) => Ok(SpecArg::Flag(o)),
        Err(_) => match parse_operation_spec(t) {
            Ok(op) => Ok(SpecArg::Operation(op)),
            Err(e) => Err(SpecError::Arg(t, Box::new(e))),
        },
    }
}

/// What classifying a token list yields: the classified tokens in order,
/// or the first token's failure.
pub open spec fn classify_args_spec(ts: Seq<Seq<char>>) -> Result<Seq<SpecArg>, SpecError>
    decreases ts.len(),
{
    if ts.len() == 0 {
        Ok(Seq::empty())
    } else {
        match classify_arg_spec(ts[0]) {
            Err(e) => Err(e),
            Ok(a) => match classify_args_spec(ts.skip(1)) {
                Err(e) => Err(e),
                Ok(rest) => Ok(seq![a] + rest),
            },
        }
    }
}

/// The views of a vector of classified tokens.
pub open spec fn arg_views(s: Seq<Arg>) -> Seq<SpecArg> {
    s.map_values(|a: Arg| a@)
}

/// The views of a vector of operations.
pub open spec fn op_views(s: Seq<ArgOperation>) -> Seq<SpecOperation> {
    s.map_values(|o: ArgOperation| o@)
}

/// The operations among the classified tokens, in their original order.
pub open spec fn ops_of(s: Seq<SpecArg>) -> Seq<SpecOperation>
    decreases s.len(),
{
    if s.len() == 0 {
        Seq::empty()
    } else {
        ops_of(s.drop_last()) + (match s.last() {
            SpecArg::Operation(op) => seq![op],
            SpecArg::Flag(_) => Seq::empty(),
        })
    }
}

/// Whether some classified token sets the given flag.
pub open spec fn has_flag(s: Seq<SpecArg>, o: ArgOption) -> bool
    decreases s.len(),
{
    if s.len() == 0 {
        false
    } else {
        has_flag(s.drop_last(), o) || s.last() == SpecArg::Flag(o)
    }
}

/// The argument set the classified tokens denote, before validation.
pub open spec fn args_of(cl: Seq<SpecArg>) -> SpecArgs {
    SpecArgs {
        op: ops_of(cl),
        force: has_flag(cl, ArgOption::Force),
        restart: has_flag(cl, ArgOption::Restart),
        simulate: has_flag(cl, ArgOption::Simulate),
        usage: has_flag(cl, ArgOption::Usage),
    }
}

/// What parsing the command-line token list yields: an empty list is the
/// control condition that triggers script input; otherwise every token is
/// classified, the flags are gathered, and the operations are validated.
pub open spec fn parse_args_spec(ts: Seq<Seq<char>>) -> Result<SpecArgs, SpecError> {
    if ts.len() == 0 {
        Err(SpecError::ArgNone)
    } else {
        match classify_args_spec(ts) {
            Err(e) => Err(e),
            Ok(cl) => {
                let a = args_of(cl);
                match validate_args_spec(a) {
                    Err(e) => Err(e),
                    Ok(_) => Ok(a),
                }
            },
        }
    }
}

/// Parses the command-line arguments received from the platform loader.
pub fn parse_args(args: Vec<Vec<char>>) -> (r: Result<Args, AppError>)
    ensures
        match r {
            Ok(a) => parse_args_spec(text::char_views(args@)) == Ok::<SpecArgs, SpecError>(a@),
            Err(e) => parse_args_spec(text::char_views(args@)) == Err::<SpecArgs, SpecError>(
                e@,
            ),
        },
{
    let ghost cv = text::char_views(args@);
    if args.len() == 0 {
        return Err(AppError::ArgNone);
    }
    // Classify each token as an option flag or an operation.
    let mut classified: Vec<Arg> = Vec::new();
    proof {
        assert(cv.skip(0) =~= cv);
    }
    let mut i: usize = 0;
    while i < args.len()
        invariant
            i <= args@.len() == cv.len(),
            cv == text::char_views(args@),
            classify_args_spec(cv) == (match classify_args_spec(cv.skip(i as int)) {
                Ok(rest) => Ok::<Seq<SpecArg>, SpecError>(arg_views(classified@) + rest),
                Err(e) => Err::<Seq<SpecArg>, SpecError>(e),
            }),
        decreases args.len() - i,
    {
        let ghost pre = arg_views(classified@);
        proof {
            assert(cv.skip(i as int)[0] == cv[i as int]);
            assert(cv.skip(i as int).skip(1) =~= cv.skip(i + 1));
        }
        let token = &args[i];
        match parse_arg_option(token) {
            Ok(o) => {
                classified.push(Arg::Flag(o));
            },
            Err(_) => {
                match parse_operation(token) {
                    Ok(op) => {
                        classified.push(Arg::Operation(op));
                    },
                    Err(e) => {
                        return Err(AppError::Arg(text::dup(token), Box::new(e)));
                    },
                }
            },
        }
        proof {
            assert(arg_views(classified@) =~= pre.push(classified@.last()@));
            assert forall|rest: Seq<SpecArg>|
                pre.push(classified@.last()@) + rest =~= pre + (seq![classified@.last()@]
                    + rest) by {}
        }
        i = i + 1;
    }
    proof {
        assert(cv.skip(cv.len() as int) =~= Seq::<Seq<char>>::empty());
        assert(arg_views(classified@) + Seq::<SpecArg>::empty() =~= arg_views(classified@));
    }
    let ghost cl = arg_views(classified@);

    // Gather the operations in order, and fold the option flags in.
    let mut out = Args { op: Vec::new(), force: false, restart: false, simulate: false, usage: false };
    let mut j: usize = 0;
    while j < classified.len()
        invariant
            j <= classified@.len(),
            cl == arg_views(classified@),
            op_views(out.op@) =~= ops_of(cl.take(j as int)),
            out.force == has_flag(cl.take(j as int), ArgOption::Force),
            out.restart == has_flag(cl.take(j as int), ArgOption::Restart),
            out.simulate == has_flag(cl.take(j as int), ArgOption::Simulate),
            out.usage == has_flag(cl.take(j as int), ArgOption::Usage),
        decreases classified.len() - j,
    {
        proof {
            assert(cl.take(j + 1).drop_last() =~= cl.take(j as int));
            assert(cl.take(j + 1).last() == cl[j as int]);
        }
        let ghost pre_ops = op_views(out.op@);
        match &classified[j] {
            Arg::Operation(op) => {
                let copy = ArgOperation {
                    action: op.action,
                    target: OperationTarget {
                        id: op.target.id,
                        name: text::dup(&op.target.name),
                        offset: op.target.offset,
                        size: op.target.size,
                    },
                };
                out.op.push(copy);
                proof {
                    assert(op_views(out.op@) =~= pre_ops.push(op@));
                    assert(pre_ops.push(op@) =~= pre_ops + seq![op@]);
                }
            },
            Arg::Flag(o) => {
                match o {
                    ArgOption::Force => {
                        out.force = true;
                    },
                    ArgOption::Restart => {
                        out.restart = true;
                    },
                    ArgOption::Simulate => {
                        out.simulate = true;
                    },
                    ArgOption::Usage => {
                        out.usage = true;
                    },
                }
                proof {
                    assert(ops_of(cl.take(j + 1)) =~= pre_ops + Seq::<SpecOperation>::empty());
                }
            },
        }
        j = j + 1;
    }
    proof {
        assert(cl.take(cl.len() as int) =~= cl);
        assert(out@ == args_of(cl));
    }

    // Validate the assembled argument set.
    match out.validate() {
        Ok(_) => Ok(out),
        Err(e) => Err(e),
    }
}

/// Whether a raw loader token is kept: an option token starts with the
/// option prefix, an operation token contains the offset indicator;
/// anything else is noise from the loader and is silently discarded.
pub open spec fn keep_token(t: Seq<char>) -> bool {
    (t.len() > 0 && t[0] == '-') || t.contains(':')
}

/// The raw loader tokens that survive the filter, in order.
pub open spec fn filter_tokens_spec(ts: Seq<Seq<char>>) -> Seq<Seq<char>>
    decreases ts.len(),
{
    if ts.len() == 0 {
        Seq::empty()
    } else {
        filter_tokens_spec(ts.drop_last()) + (if keep_token(ts.last()) {
            seq![ts.last()]
        } else {
            Seq::empty()
        })
    }
}

/// Filters the raw loader tokens down to those that look like options or
/// operations.
pub fn filter_tokens(tokens: Vec<Vec<char>>) -> (r: Vec<Vec<char>>)
    ensures
        text::char_views(r@) == filter_tokens_spec(text::char_views(tokens@)),
{
    let ghost cv = text::char_views(tokens@);
    let mut kept: Vec<Vec<char>> = Vec::new();
    let mut i: usize = 0;
    while i < tokens.len()
        invariant
            i <= tokens@.len() == cv.len(),
            cv == text::char_views(tokens@),
            text::char_views(kept@) =~= filter_tokens_spec(cv.take(i as int)),
        decreases tokens.len() - i,
    {
        proof {
            assert(cv.take(i + 1).drop_last() =~= cv.take(i as int));
            assert(cv.take(i + 1).last() == cv[i as int]);
        }
        let ghost pre = text::char_views(kept@);
        let t = &tokens[i];
        let keep = if t.len() > 0 && t[0] == '-' {
            true
        } else {
            text::has(t, ':')
        };
        if keep {
            kept.push(text::dup(t));
            proof {
                assert(text::char_views(kept@) =~= pre.push(cv[i as int]));
                assert(pre.push(cv[i as int]) =~= pre + seq![cv[i as int]]);
            }
        } else {
            proof {
                assert(filter_tokens_spec(cv.take(i + 1)) =~= pre + Seq::<Seq<char>>::empty());
            }
        }
        i = i + 1;
    }
    proof {
        assert(cv.take(cv.len() as int) =~= cv);
    }
    kept
}

/// What cleaning one script line yields: the line is truncated at the
/// comment character (a line whose first character is the comment
/// character is discarded whole), then trimmed; a line left empty
/// vanishes.
pub open spec fn clean_line_spec(line: Seq<char>) -> Option<Seq<char>> {
    if line.contains('#') {
        let i = text::find_first_spec(line, '#')->Some_0;
        if i == 0 {
            None
        } else {
            let t = text::trim_spec(line.take(i));
            if t.len() == 0 {
                None
            } else {
                Some(t)
            }
        }
    } else {
        let t = text::trim_spec(line);
        if t.len() == 0 {
            None
        } else {
            Some(t)
        }
    }
}

/// The cleaned lines of a script, in order; lines that vanish contribute
/// nothing.
pub open spec fn cleaned_lines_spec(lines: Seq<Seq<char>>) -> Seq<Seq<char>>
    decreases lines.len(),
{
    if lines.len() == 0 {
        Seq::empty()
    } else {
        cleaned_lines_spec(lines.drop_last()) + (match clean_line_spec(lines.last()) {
            Some(l) => seq![l],
            None => Seq::empty(),
        })
    }
}

/// What classifying an option directive line yields: the directive prefix
/// followed by one of the recognized option words.
pub open spec fn parse_input_option_spec(line: Seq<char>) -> Result<ArgOption, SpecError> {
    match text::strip_first_spec(line, '!') {
        None => Err(SpecError::InputOpt(line)),
        Some(rest) => if rest == word_force() {
            Ok(ArgOption::Force)
        } else if rest == word_restart() {
            Ok(ArgOption::Restart)
        } else if rest == word_simulate() {
            Ok(ArgOption::Simulate)
        } else {
            Err(SpecError::InputOpt(line))
        },
    }
}

/// What classifying a definition line yields: an alias and a target,
/// separated by the definition separator; the target must parse as an
/// operation without an assignment.
pub open spec fn parse_target_def_spec(line: Seq<char>) -> Result<SpecEntry, SpecError> {
    match text::split_once_spec(line, ',') {
        None => Err(SpecError::InputDef(line)),
        Some((alias, target_text)) => match parse_operation_spec(target_text) {
            Err(e) => Err(e),
            Ok(op) => if op.action is Get {
                Ok(SpecEntry::TargetDefinition { name: alias, target: op.target })
            } else {
                Err(SpecError::InputDefSet(target_text))
            },
        },
    }
}

/// What classifying a reference line yields: the reference prefix, the
/// alias, and an optional assignment clause that overrides the action to
/// a write.
pub open spec fn parse_target_ref_spec(line: Seq<char>) -> Result<SpecEntry, SpecError> {
    if !(line.len() > 0 && line[0] == '@') {
        Err(SpecError::InputRef(line))
    } else {
        let rest = line.skip(1);
        if !rest.contains('=') {
            Ok(SpecEntry::TargetReference { name: rest, action: OperationType::Get })
        } else {
            let i = text::find_first_spec(rest, '=')->Some_0;
            let name = rest.take(i);
            let value = rest.skip(i);
            match parse_action_spec(value) {
                Err(e) => Err(e),
                Ok((_, action)) => Ok(SpecEntry::TargetReference { name, action }),
            }
        }
    }
}

/// What classifying one cleaned line yields: an option directive, an
/// alias definition, an operation, or an alias reference, tried in that
/// order; when none matches, the reference parser's error stands.
#[verifier::opaque]
pub open spec fn classify_line_spec(line: Seq<char>) -> Result<SpecEntry, SpecError> {
    match parse_input_option_spec(line) {
        Ok(o) => Ok(SpecEntry::Flag(o)),
        Err(_) => match parse_target_def_spec(line) {
            Ok(e) => Ok(e),
            Err(_) => match parse_operation_spec(line) {
                Ok(op) => Ok(SpecEntry::Operation(op)),
                Err(_) => parse_target_ref_spec(line),
            },
        },
    }
}

/// What classifying the cleaned lines yields: the entries in order, or
/// the first line's failure.
pub open spec fn classify_lines_spec(lines: Seq<Seq<char>>) -> Result<Seq<SpecEntry>, SpecError>
    decreases lines.len(),
{
    if lines.len() == 0 {
        Ok(Seq::empty())
    } else {
        match classify_line_spec(lines[0]) {
            Err(e) => Err(e),
            Ok(entry) => match classify_lines_spec(lines.skip(1)) {
                Err(e) => Err(e),
                Ok(rest) => Ok(seq![entry] + rest),
            },
        }
    }
}

/// The views of a vector of script entries.
pub open spec fn entry_views(s: Seq<InputEntry>) -> Seq<SpecEntry> {
    s.map_values(|e: InputEntry| e@)
}

/// The views of a vector of collected definitions.
pub open spec fn def_views(s: Seq<(Vec<char>, OperationTarget)>) -> Seq<(Seq<char>, SpecTarget)> {
    s.map_values(|d: (Vec<char>, OperationTarget)| (d.0@, d.1@))
}

/// The alias bindings among the entries, in order.
pub open spec fn defs_of(entries: Seq<SpecEntry>) -> Seq<(Seq<char>, SpecTarget)>
    decreases entries.len(),
{
    if entries.len() == 0 {
        Seq::empty()
    } else {
        defs_of(entries.drop_last()) + (match entries.last() {
            SpecEntry::TargetDefinition { name, target } => seq![(name, target)],
            _ => Seq::empty(),
        })
    }
}

/// The directly-stated operations among the entries, in order.
pub open spec fn direct_ops_of(entries: Seq<SpecEntry>) -> Seq<SpecOperation>
    decreases entries.len(),
{
    if entries.len() == 0 {
        Seq::empty()
    } else {
        direct_ops_of(entries.drop_last()) + (match entries.last() {
            SpecEntry::Operation(op) => seq![op],
            _ => Seq::empty(),
        })
    }
}

/// Whether some entry is a directive setting the given flag.
pub open spec fn entry_has_flag(entries: Seq<SpecEntry>, o: ArgOption) -> bool
    decreases entries.len(),
{
    if entries.len() == 0 {
        false
    } else {
        entry_has_flag(entries.drop_last(), o) || entries.last() == SpecEntry::Flag(o)
    }
}

/// The target the first definition of `name` binds, if any: with
/// duplicate aliases the earliest definition wins.
pub open spec fn lookup_def(defs: Seq<(Seq<char>, SpecTarget)>, name: Seq<char>) -> Option<
    SpecTarget,
>
    decreases defs.len(),
{
    if defs.len() == 0 {
        None
    } else if defs[0].0 == name {
        Some(defs[0].1)
    } else {
        lookup_def(defs.skip(1), name)
    }
}

/// The operations the references derive, in order: each reference looks
/// its alias up among the definitions; the first unresolved alias aborts
/// resolution.
pub open spec fn resolve_refs_spec(
    entries: Seq<SpecEntry>,
    defs: Seq<(Seq<char>, SpecTarget)>,
) -> Result<Seq<SpecOperation>, SpecError>
    decreases entries.len(),
{
    if entries.len() == 0 {
        Ok(Seq::empty())
    } else {
        match entries[0] {
            SpecEntry::TargetReference { name, action } => match lookup_def(defs, name) {
                None => Err(SpecError::InputRefNone(name)),
                Some(target) => match resolve_refs_spec(entries.skip(1), defs) {
                    Err(e) => Err(e),
                    Ok(rest) => Ok(seq![SpecOperation { action, target }] + rest),
                },
            },
            _ => resolve_refs_spec(entries.skip(1), defs),
        }
    }
}

/// What resolving the classified entries yields: the directly-stated
/// operations, then the reference-derived ones, each group in original
/// order, with the directive flags folded in; the assembled set is then
/// validated as the command-line front-end validates its own.
pub open spec fn resolve_entries_spec(entries: Seq<SpecEntry>) -> Result<SpecArgs, SpecError> {
    match resolve_refs_spec(entries, defs_of(entries)) {
        Err(e) => Err(e),
        Ok(ref_ops) => {
            let a = SpecArgs {
                op: direct_ops_of(entries) + ref_ops,
                force: entry_has_flag(entries, ArgOption::Force),
                restart: entry_has_flag(entries, ArgOption::Restart),
                simulate: entry_has_flag(entries, ArgOption::Simulate),
                usage: false,
            };
            match validate_args_spec(a) {
                Err(e) => Err(e),
                Ok(_) => Ok(a),
            }
        },
    }
}

/// What parsing a whole script yields: empty input is the control
/// condition that there is nothing to do; otherwise the input splits into
/// lines, the lines are cleaned, classified, and resolved.
pub open spec fn parse_input_spec(input: Seq<char>) -> Result<SpecArgs, SpecError> {
    if input.len() == 0 {
        Err(SpecError::InputNone)
    } else {
        let cleaned = cleaned_lines_spec(text::split_spec(input, '\n'));
        match classify_lines_spec(cleaned) {
            Err(e) => Err(e),
            Ok(entries) => resolve_entries_spec(entries),
        }
    }
}

/// The decimal rendering of a value consists of decimal digits and
/// denotes exactly that value.
pub proof fn lemma_dec_render_parse(v: nat)
    ensures
        dec_render(v).len() >= 1,
        all_dec_digits(dec_render(v)),
        dec_value(dec_render(v)) == v,
    decreases v,
{
    if v < 10 {
        let s = seq![digit_char(v)];
        assert(s.drop_last() =~= Seq::<char>::empty());
        assert(s.last() == digit_char(v));
        assert(is_dec_digit(digit_char(v)) && dec_digit_val(digit_char(v)) == v);
        assert forall|i: int| 0 <= i < s.len() implies is_dec_digit(#[trigger] s[i]) by {
            assert(s[0] == digit_char(v));
        }
        assert(dec_value(Seq::<char>::empty()) == 0);
        assert(dec_value(s) == v);
    } else {
        lemma_dec_render_parse(v / 10);
        let p = dec_render(v / 10);
        let d = digit_char(v % 10);
        assert(dec_render(v) == p.push(d));
        assert(p.push(d).drop_last() =~= p);
        assert(p.push(d).last() == d);
        assert(is_dec_digit(d) && dec_digit_val(d) == v % 10);
        assert forall|i: int| 0 <= i < p.push(d).len() implies is_dec_digit(
            #[trigger] p.push(d)[i],
        ) by {
            if i < p.len() {
                assert(p.push(d)[i] == p[i]);
            }
        }
        vstd::arithmetic::div_mod::lemma_fundamental_div_mod(v as int, 10);
    }
}

/// The hexadecimal rendering of a value consists of hexadecimal digits,
/// has at least the requested width, and denotes exactly that value.
pub proof fn lemma_hex_render_parse(v: nat, m: nat)
    ensures
        hex_render(v, m).len() >= 1,
        hex_render(v, m).len() >= m,
        all_hex_digits(hex_render(v, m)),
        hex_value(hex_render(v, m)) == v,
    decreases m, v,
{
    if v < 16 && m <= 1 {
        let s = seq![digit_char(v)];
        assert(s.drop_last() =~= Seq::<char>::empty());
        assert(s.last() == digit_char(v));
        assert(is_hex_digit(digit_char(v)) && hex_digit_val(digit_char(v)) == v);
        assert forall|i: int| 0 <= i < s.len() implies is_hex_digit(#[trigger] s[i]) by {
            assert(s[0] == digit_char(v));
        }
        assert(hex_value(Seq::<char>::empty()) == 0);
        assert(hex_value(s) == v);
    } else {
        let m2 = if m == 0 {
            0
        } else {
            (m - 1) as nat
        };
        lemma_hex_render_parse(v / 16, m2);
        let p = hex_render(v / 16, m2);
        let d = digit_char(v % 16);
        assert(hex_render(v, m) == p.push(d));
        assert(p.push(d).drop_last() =~= p);
        assert(p.push(d).last() == d);
        assert(is_hex_digit(d) && hex_digit_val(d) == v % 16);
        assert forall|i: int| 0 <= i < p.push(d).len() implies is_hex_digit(
            #[trigger] p.push(d)[i],
        ) by {
            if i < p.len() {
                assert(p.push(d)[i] == p[i]);
            }
        }
        vstd::arithmetic::div_mod::lemma_fundamental_div_mod(v as int, 16);
    }
}

/// The hexadecimal rendering of a value below 16^k, to a width of at most
/// k digits, has at most k digits.
pub proof fn lemma_hex_render_len(v: nat, m: nat, k: nat)
    requires
        m <= k,
        1 <= k,
        v < vstd::arithmetic::power::pow(16, k),
    ensures
        hex_render(v, m).len() <= k,
    decreases k,
{
    vstd::arithmetic::power::lemma_pow1(16);
    if v < 16 && m <= 1 {
        assert(hex_render(v, m) == seq![digit_char(v)]);
    } else {
        vstd::arithmetic::power::lemma_pow_adds(16, 1, (k - 1) as nat);
        assert(vstd::arithmetic::power::pow(16, k) == 16 * vstd::arithmetic::power::pow(
            16,
            (k - 1) as nat,
        ));
        assert(k >= 2);
        let m2 = if m == 0 {
            0
        } else {
            (m - 1) as nat
        };
        vstd::arithmetic::power::lemma_pow_positive(16, (k - 1) as nat);
        assert(v / 16 < vstd::arithmetic::power::pow(16, (k - 1) as nat)) by (
        nonlinear_arith)
            requires
                v < 16 * vstd::arithmetic::power::pow(16, (k - 1) as nat),
                vstd::arithmetic::power::pow(16, (k - 1) as nat) > 0,
        {}
        lemma_hex_render_len(v / 16, m2, (k - 1) as nat);
    }
}

/// Sixteen hexadecimal digits cover every 64-bit value.
pub proof fn lemma_pow16_16()
    ensures
        vstd::arithmetic::power::pow(16, 16) == accum_mod(),
{
    vstd::arithmetic::power2::lemma2_to64_rest();
    vstd::arithmetic::power2::lemma2_to64();
    vstd::arithmetic::power2::lemma_pow2(64);
    vstd::arithmetic::power2::lemma_pow2(4);
    vstd::arithmetic::power::lemma_pow_multiplies(2, 4, 16);
}

/// No digit character is one of the grammar's delimiters.
pub proof fn lemma_digits_not_special(s: Seq<char>)
    requires
        all_hex_digits(s) || all_dec_digits(s),
    ensures
        !s.contains(':'),
        !s.contains('('),
        !s.contains(')'),
        !s.contains('='),
{
    if s.contains(':') {
        let w = choose|j: int| 0 <= j < s.len() && s[j] == ':';
        assert(is_hex_digit(s[w]) || is_dec_digit(s[w]));
    }
    if s.contains('(') {
        let w = choose|j: int| 0 <= j < s.len() && s[j] == '(';
        assert(is_hex_digit(s[w]) || is_dec_digit(s[w]));
    }
    if s.contains(')') {
        let w = choose|j: int| 0 <= j < s.len() && s[j] == ')';
        assert(is_hex_digit(s[w]) || is_dec_digit(s[w]));
    }
    if s.contains('=') {
        let w = choose|j: int| 0 <= j < s.len() && s[j] == '=';
        assert(is_hex_digit(s[w]) || is_dec_digit(s[w]));
    }
}

/// A comment-only line (one whose very first character is the comment
/// character) and a line of blanks only both vanish during cleaning: they
/// contribute no script entry.
pub proof fn lemma_line_vanishes(line: Seq<char>)
    ensures
        line.len() > 0 && line[0] == '#' ==> clean_line_spec(line) is None,
        (forall|i: int| 0 <= i < line.len() ==> text::is_blank(#[trigger] line[i]))
            ==> clean_line_spec(line) is None,
{
    if line.len() > 0 && line[0] == '#' {
        assert(line.contains('#'));
        text::lemma_find_first_spec(line, '#');
        let k = text::find_first_spec(line, '#')->Some_0;
        assert(k == 0);
    }
    if forall|i: int| 0 <= i < line.len() ==> text::is_blank(#[trigger] line[i]) {
        if line.contains('#') {
            let w = choose|j: int| 0 <= j < line.len() && line[j] == '#';
            assert(text::is_blank(line[w]));
        }
        text::lemma_trim_front_skip(line, line.len() as int);
        assert(line.skip(line.len() as int) =~= Seq::<char>::empty());
        assert(text::trim_spec(line) =~= Seq::<char>::empty());
    }
}

/// A script of one alias definition and one reference resolves the same
/// whichever of the two lines comes first: whether a definition stands
/// before or after the references to it does not matter.
pub proof fn lemma_def_ref_order_immaterial(d: SpecEntry, r: SpecEntry)
    requires
        d is TargetDefinition,
        r is TargetReference,
    ensures
        resolve_entries_spec(seq![d, r]) == resolve_entries_spec(seq![r, d]),
{
    let dr = seq![d, r];
    let rd = seq![r, d];
    assert(dr.drop_last() =~= seq![d]);
    assert(rd.drop_last() =~= seq![r]);
    assert(seq![d].drop_last() =~= Seq::<SpecEntry>::empty());
    assert(seq![r].drop_last() =~= Seq::<SpecEntry>::empty());
    assert(defs_of(Seq::<SpecEntry>::empty()) == Seq::<(Seq<char>, SpecTarget)>::empty());
    assert(direct_ops_of(Seq::<SpecEntry>::empty()) == Seq::<SpecOperation>::empty());
    match d {
        SpecEntry::TargetDefinition { name: dn, target: dt } => {
            assert(defs_of(seq![d]) =~= seq![(dn, dt)]);
            assert(defs_of(seq![r]) =~= Seq::<(Seq<char>, SpecTarget)>::empty());
            assert(defs_of(dr) =~= seq![(dn, dt)]);
            assert(defs_of(rd) =~= seq![(dn, dt)]);
        },
        _ => {},
    }
    assert(direct_ops_of(seq![d]) =~= Seq::<SpecOperation>::empty());
    assert(direct_ops_of(seq![r]) =~= Seq::<SpecOperation>::empty());
    assert(direct_ops_of(dr) =~= Seq::<SpecOperation>::empty());
    assert(direct_ops_of(rd) =~= Seq::<SpecOperation>::empty());
    assert(defs_of(dr) =~= defs_of(rd));
    assert(!entry_has_flag(Seq::<SpecEntry>::empty(), ArgOption::Force));
    assert(!entry_has_flag(Seq::<SpecEntry>::empty(), ArgOption::Restart));
    assert(!entry_has_flag(Seq::<SpecEntry>::empty(), ArgOption::Simulate));
    assert(!entry_has_flag(seq![d], ArgOption::Force) && !entry_has_flag(
        seq![r],
        ArgOption::Force,
    ));
    assert(!entry_has_flag(seq![d], ArgOption::Restart) && !entry_has_flag(
        seq![r],
        ArgOption::Restart,
    ));
    assert(!entry_has_flag(seq![d], ArgOption::Simulate) && !entry_has_flag(
        seq![r],
        ArgOption::Simulate,
    ));
    assert(entry_has_flag(dr, ArgOption::Force) == entry_has_flag(rd, ArgOption::Force));
    assert(entry_has_flag(dr, ArgOption::Restart) == entry_has_flag(rd, ArgOption::Restart));
    assert(entry_has_flag(dr, ArgOption::Simulate) == entry_has_flag(
        rd,
        ArgOption::Simulate,
    ));
    assert(dr.skip(1) =~= seq![r]);
    assert(rd.skip(1) =~= seq![d]);
    assert(seq![r].skip(1) =~= Seq::<SpecEntry>::empty());
    assert(seq![d].skip(1) =~= Seq::<SpecEntry>::empty());
    let defs = defs_of(dr);
    assert(dr[0] == d && rd[0] == r && seq![d][0] == d && seq![r][0] == r);
    assert(resolve_refs_spec(Seq::<SpecEntry>::empty(), defs) == Ok::<
        Seq<SpecOperation>,
        SpecError,
    >(Seq::empty()));
    assert(resolve_refs_spec(seq![d], defs) == Ok::<Seq<SpecOperation>, SpecError>(
        Seq::empty(),
    ));
    match r {
        SpecEntry::TargetReference { name: rn, action: ra } => {
            match lookup_def(defs, rn) {
                None => {
                    assert(resolve_refs_spec(seq![r], defs) == Err::<
                        Seq<SpecOperation>,
                        SpecError,
                    >(SpecError::InputRefNone(rn)));
                },
                Some(t) => {
                    assert(resolve_refs_spec(seq![r], defs) == Ok::<
                        Seq<SpecOperation>,
                        SpecError,
                    >(seq![SpecOperation { action: ra, target: t }] + Seq::empty()));
                },
            }
            assert(resolve_refs_spec(dr, defs) == resolve_refs_spec(seq![r], defs));
            assert(resolve_refs_spec(rd, defs) == resolve_refs_spec(seq![r], defs));
        },
        _ => {},
    }
    assert(resolve_refs_spec(dr, defs) == resolve_refs_spec(rd, defs));
}

/// Cleans one script line: truncates at the comment character, trims, and
/// reports a vanishing line as absent.
fn clean_line(line: &Vec<char>) -> (r: Option<Vec<char>>)
    ensures
        match r {
            Some(l) => clean_line_spec(line@) == Some(l@),
            None => clean_line_spec(line@) is None,
        },
{
    let truncated: Vec<char>;
    if text::has(line, '#') {
        let i = match text::find_first(line, '#') {
            Some(i) => i,
            None => {
                // Unreachable: the line was just seen to contain the
                // comment character.
                proof {
                    text::lemma_find_first_spec(line@, '#');
                }
                return None;
            },
        };
        if i == 0 {
            return None;
        }
        proof {
            text::lemma_find_first_spec(line@, '#');
        }
        truncated = text::copy_range(line, 0, i);
        proof {
            assert(truncated@ =~= line@.take(i as int));
        }
    } else {
        truncated = text::dup(line);
    }
    let trimmed = text::trim(&truncated);
    if trimmed.len() == 0 {
        None
    } else {
        Some(trimmed)
    }
}

/// Attempts to classify a script line as an option directive.
pub fn parse_input_option(arg: &Vec<char>) -> (r: Result<ArgOption, AppError>)
    ensures
        match r {
            Ok(o) => parse_input_option_spec(arg@) == Ok::<ArgOption, SpecError>(o),
            Err(e) => parse_input_option_spec(arg@) == Err::<ArgOption, SpecError>(e@),
        },
{
    let rest = match text::strip_first(arg, '!') {
        Some(rest) => rest,
        None => {
            return Err(AppError::InputOpt(text::dup(arg)));
        },
    };
    let w = word_force_exec();
    if text::eq_chars(&rest, &w) {
        return Ok(ArgOption::Force);
    }
    let w = word_restart_exec();
    if text::eq_chars(&rest, &w) {
        return Ok(ArgOption::Restart);
    }
    let w = word_simulate_exec();
    if text::eq_chars(&rest, &w) {
        return Ok(ArgOption::Simulate);
    }
    Err(AppError::InputOpt(text::dup(arg)))
}

/// Attempts to classify a script line as an alias definition.
pub fn parse_target_def(arg: &Vec<char>) -> (r: Result<InputEntry, AppError>)
    ensures
        match r {
            Ok(entry) => parse_target_def_spec(arg@) == Ok::<SpecEntry, SpecError>(entry@),
            Err(e) => parse_target_def_spec(arg@) == Err::<SpecEntry, SpecError>(e@),
        },
{
    let (alias, target_text) = match text::split_once(arg, ',') {
        Some(pair) => pair,
        None => {
            return Err(AppError::InputDef(text::dup(arg)));
        },
    };
    let operation = match parse_operation(&target_text) {
        Ok(op) => op,
        Err(e) => {
            return Err(e);
        },
    };
    match operation.action {
        OperationType::Get => Ok(
            InputEntry::TargetDefinition { name: alias, target: operation.target },
        ),
        OperationType::Write(_) => Err(AppError::InputDefSet(target_text)),
    }
}

/// Attempts to classify a script line as an alias reference.
pub fn parse_target_ref(arg: &Vec<char>) -> (r: Result<InputEntry, AppError>)
    ensures
        match r {
            Ok(entry) => parse_target_ref_spec(arg@) == Ok::<SpecEntry, SpecError>(entry@),
            Err(e) => parse_target_ref_spec(arg@) == Err::<SpecEntry, SpecError>(e@),
        },
{
    if !text::has_first(arg, '@') {
        return Err(AppError::InputRef(text::dup(arg)));
    }
    let rest = match text::strip_first(arg, '@') {
        Some(rest) => rest,
        None => {
            return Err(AppError::InputRef(text::dup(arg)));
        },
    };
    if text::has(&rest, '=') {
        let i = match text::find_first(&rest, '=') {
            Some(i) => i,
            None => {
                // Unreachable: the text was just seen to contain the
                // assignment operator.
                proof {
                    text::lemma_find_first_spec(rest@, '=');
                }
                return Err(AppError::InputRef(text::dup(arg)));
            },
        };
        proof {
            text::lemma_find_first_spec(rest@, '=');
        }
        let n = rest.len();
        let name = text::copy_range(&rest, 0, i);
        let value = text::copy_range(&rest, i, n);
        proof {
            assert(name@ =~= rest@.take(i as int));
            assert(value@ =~= rest@.skip(i as int));
        }
        match parse_operation_type(&value) {
            Err(e) => Err(e),
            Ok((_, action)) => Ok(InputEntry::TargetReference { name, action }),
        }
    } else {
        Ok(InputEntry::TargetReference { name: rest, action: OperationType::Get })
    }
}

/// Classifies one cleaned script line, trying the entry forms in order;
/// when none matches, the reference parser's error stands.
fn classify_line(line: &Vec<char>) -> (r: Result<InputEntry, AppError>)
    ensures
        match r {
            Ok(entry) => classify_line_spec(line@) == Ok::<SpecEntry, SpecError>(entry@),
            Err(e) => classify_line_spec(line@) == Err::<SpecEntry, SpecError>(e@),
        },
{
    proof {
        reveal(classify_line_spec);
    }
    match parse_input_option(line) {
        Ok(o) => Ok(InputEntry::Flag(o)),
        Err(_) => match parse_target_def(line) {
            Ok(e) => Ok(e),
            Err(_) => match parse_operation(line) {
                Ok(op) => Ok(InputEntry::Operation(op)),
                Err(_) => parse_target_ref(line),
            },
        },
    }
}

/// A fresh copy of a target.
fn dup_target(t: &OperationTarget) -> (r: OperationTarget)
    ensures
        r@ == t@,
{
    OperationTarget { id: t.id, name: text::dup(&t.name), offset: t.offset, size: t.size }
}

/// Looks an alias up among the collected definitions; the earliest
/// definition of the alias wins.
fn lookup_def_exec(defs: &Vec<(Vec<char>, OperationTarget)>, name: &Vec<char>) -> (r: Option<
    OperationTarget,
>)
    ensures
        match r {
            Some(t) => lookup_def(def_views(defs@), name@) == Some(t@),
            None => lookup_def(def_views(defs@), name@) is None,
        },
{
    let ghost dv = def_views(defs@);
    proof {
        assert(dv.skip(0) =~= dv);
    }
    let mut i: usize = 0;
    while i < defs.len()
        invariant
            i <= defs@.len() == dv.len(),
            dv == def_views(defs@),
            lookup_def(dv, name@) == lookup_def(dv.skip(i as int), name@),
        decreases defs.len() - i,
    {
        proof {
            assert(dv.skip(i as int)[0] == dv[i as int]);
            assert(dv.skip(i as int).skip(1) =~= dv.skip(i + 1));
        }
        if text::eq_chars(&defs[i].0, name) {
            return Some(dup_target(&defs[i].1));
        }
        i = i + 1;
    }
    proof {
        assert(dv.skip(dv.len() as int) =~= Seq::<(Seq<char>, SpecTarget)>::empty());
    }
    None
}

/// Parses a script read from the input stream.
#[verifier::rlimit(100)]
pub fn parse_input(input: Vec<char>) -> (r: Result<Args, AppError>)
    ensures
        match r {
            Ok(a) => parse_input_spec(input@) == Ok::<SpecArgs, SpecError>(a@),
            Err(e) => parse_input_spec(input@) == Err::<SpecArgs, SpecError>(e@),
        },
{
    if input.len() == 0 {
        return Err(AppError::InputNone);
    }
    let lines = text::split(&input, '\n');
    let ghost lv = text::char_views(lines@);

    // Remove comments and blank lines.
    let mut cleaned: Vec<Vec<char>> = Vec::new();
    let mut i: usize = 0;
    while i < lines.len()
        invariant
            i <= lines@.len() == lv.len(),
            lv == text::char_views(lines@),
            text::char_views(cleaned@) =~= cleaned_lines_spec(lv.take(i as int)),
        decreases lines.len() - i,
    {
        proof {
            assert(lv.take(i + 1).drop_last() =~= lv.take(i as int));
            assert(lv.take(i + 1).last() == lv[i as int]);
        }
        let ghost pre = text::char_views(cleaned@);
        match clean_line(&lines[i]) {
            Some(l) => {
                let ghost l_view = l@;
                cleaned.push(l);
                proof {
                    assert(text::char_views(cleaned@) =~= pre.push(l_view));
                    assert(pre.push(l_view) =~= pre + seq![l_view]);
                }
            },
            None => {
                proof {
                    assert(cleaned_lines_spec(lv.take(i + 1)) =~= pre + Seq::<
                        Seq<char>,
                    >::empty());
                }
            },
        }
        i = i + 1;
    }
    proof {
        assert(lv.take(lv.len() as int) =~= lv);
    }
    let ghost cv = text::char_views(cleaned@);

    // Classify each remaining line.
    let mut entries: Vec<InputEntry> = Vec::new();
    proof {
        assert(cv.skip(0) =~= cv);
    }
    let mut i: usize = 0;
    while i < cleaned.len()
        invariant
            input@.len() > 0,
            cv == cleaned_lines_spec(text::split_spec(input@, '\n')),
            i <= cleaned@.len() == cv.len(),
            cv == text::char_views(cleaned@),
            classify_lines_spec(cv) == (match classify_lines_spec(cv.skip(i as int)) {
                Ok(rest) => Ok::<Seq<SpecEntry>, SpecError>(entry_views(entries@) + rest),
                Err(e) => Err::<Seq<SpecEntry>, SpecError>(e),
            }),
        decreases cleaned.len() - i,
    {
        let ghost pre = entry_views(entries@);
        proof {
            assert(cv.skip(i as int)[0] == cv[i as int]);
            assert(cv.skip(i as int).skip(1) =~= cv.skip(i + 1));
        }
        let line = &cleaned[i];
        let entry = match classify_line(line) {
            Ok(e) => e,
            Err(e) => {
                return Err(e);
            },
        };
        entries.push(entry);
        proof {
            assert(entry_views(entries@) =~= pre.push(entries@.last()@));
            assert forall|rest: Seq<SpecEntry>|
                pre.push(entries@.last()@) + rest =~= pre + (seq![entries@.last()@]
                    + rest) by {}
        }
        i = i + 1;
    }
    proof {
        assert(cv.skip(cv.len() as int) =~= Seq::<Seq<char>>::empty());
        assert(entry_views(entries@) + Seq::<SpecEntry>::empty() =~= entry_views(entries@));
    }
    let ghost ev = entry_views(entries@);

    // Collect the definitions, the direct operations, and the flags.
    let mut defs: Vec<(Vec<char>, OperationTarget)> = Vec::new();
    let mut operations: Vec<ArgOperation> = Vec::new();
    let mut force = false;
    let mut restart = false;
    let mut simulate = false;
    let mut i: usize = 0;
    while i < entries.len()
        invariant
            i <= entries@.len() == ev.len(),
            ev == entry_views(entries@),
            def_views(defs@) =~= defs_of(ev.take(i as int)),
            op_views(operations@) =~= direct_ops_of(ev.take(i as int)),
            force == entry_has_flag(ev.take(i as int), ArgOption::Force),
            restart == entry_has_flag(ev.take(i as int), ArgOption::Restart),
            simulate == entry_has_flag(ev.take(i as int), ArgOption::Simulate),
        decreases entries.len() - i,
    {
        proof {
            assert(ev.take(i + 1).drop_last() =~= ev.take(i as int));
            assert(ev.take(i + 1).last() == ev[i as int]);
        }
        let ghost pre_defs = def_views(defs@);
        let ghost pre_ops = op_views(operations@);
        match &entries[i] {
            InputEntry::TargetDefinition { name, target } => {
                defs.push((text::dup(name), dup_target(target)));
                proof {
                    assert(def_views(defs@) =~= pre_defs.push((name@, target@)));
                    assert(pre_defs.push((name@, target@)) =~= pre_defs + seq![
                        (name@, target@),
                    ]);
                    assert(direct_ops_of(ev.take(i + 1)) =~= pre_ops + Seq::<
                        SpecOperation,
                    >::empty());
                }
            },
            InputEntry::Operation(op) => {
                operations.push(
                    ArgOperation { action: op.action, target: dup_target(&op.target) },
                );
                proof {
                    assert(op_views(operations@) =~= pre_ops.push(op@));
                    assert(pre_ops.push(op@) =~= pre_ops + seq![op@]);
                    assert(defs_of(ev.take(i + 1)) =~= pre_defs + Seq::<
                        (Seq<char>, SpecTarget),
                    >::empty());
                }
            },
            InputEntry::Flag(o) => {
                match o {
                    ArgOption::Force => {
                        force = true;
                    },
                    ArgOption::Restart => {
                        restart = true;
                    },
                    ArgOption::Simulate => {
                        simulate = true;
                    },
                    ArgOption::Usage => {
                    },
                }
                proof {
                    assert(defs_of(ev.take(i + 1)) =~= pre_defs + Seq::<
                        (Seq<char>, SpecTarget),
                    >::empty());
                    assert(direct_ops_of(ev.take(i + 1)) =~= pre_ops + Seq::<
                        SpecOperation,
                    >::empty());
                }
            },
            InputEntry::TargetReference { .. } => {
                proof {
                    assert(defs_of(ev.take(i + 1)) =~= pre_defs + Seq::<
                        (Seq<char>, SpecTarget),
                    >::empty());
                    assert(direct_ops_of(ev.take(i + 1)) =~= pre_ops + Seq::<
                        SpecOperation,
                    >::empty());
                }
            },
        }
        i = i + 1;
    }
    proof {
        assert(ev.take(ev.len() as int) =~= ev);
    }

    // Resolve every reference against the collected definitions.
    let ghost dv = def_views(defs@);
    let mut ref_ops: Vec<ArgOperation> = Vec::new();
    proof {
        assert(ev.skip(0) =~= ev);
    }
    let mut i: usize = 0;
    while i < entries.len()
        invariant
            input@.len() > 0,
            classify_lines_spec(cleaned_lines_spec(text::split_spec(input@, '\n'))) == Ok::<
                Seq<SpecEntry>,
                SpecError,
            >(ev),
            dv =~= defs_of(ev),
            i <= entries@.len() == ev.len(),
            ev == entry_views(entries@),
            dv == def_views(defs@),
            resolve_refs_spec(ev, dv) == (match resolve_refs_spec(ev.skip(i as int), dv) {
                Ok(rest) => Ok::<Seq<SpecOperation>, SpecError>(op_views(ref_ops@) + rest),
                Err(e) => Err::<Seq<SpecOperation>, SpecError>(e),
            }),
        decreases entries.len() - i,
    {
        let ghost pre = op_views(ref_ops@);
        proof {
            assert(ev.skip(i as int)[0] == ev[i as int]);
            assert(ev.skip(i as int).skip(1) =~= ev.skip(i + 1));
        }
        match &entries[i] {
            InputEntry::TargetReference { name, action } => {
                match lookup_def_exec(&defs, name) {
                    None => {
                        return Err(AppError::InputRefNone(text::dup(name)));
                    },
                    Some(target) => {
                        let ghost t_view = target@;
                        ref_ops.push(ArgOperation { action: *action, target });
                        proof {
                            assert(op_views(ref_ops@) =~= pre.push(
                                SpecOperation { action: *action, target: t_view },
                            ));
                            assert forall|rest: Seq<SpecOperation>|
                                pre.push(SpecOperation { action: *action, target: t_view })
                                    + rest =~= pre + (seq![
                                    SpecOperation { action: *action, target: t_view },
                                ] + rest) by {}
                        }
                    },
                }
            },
            _ => {
            },
        }
        i = i + 1;
    }
    proof {
        assert(ev.skip(ev.len() as int) =~= Seq::<SpecEntry>::empty());
        assert(op_views(ref_ops@) + Seq::<SpecOperation>::empty() =~= op_views(ref_ops@));
    }

    // Join the direct operations with the reference-derived ones.
    let ghost direct_view = op_views(operations@);
    let ghost refs_view = op_views(ref_ops@);
    let mut operations = operations;
    let mut ref_ops = ref_ops;
    operations.append(&mut ref_ops);
    proof {
        assert(resolve_refs_spec(ev, dv) == Ok::<Seq<SpecOperation>, SpecError>(refs_view));
        assert(op_views(operations@) =~= direct_view + refs_view);
        assert(direct_view =~= direct_ops_of(ev));
    }

    let out = Args { op: operations, force, restart, simulate, usage: false };
    proof {
        assert(out@.op =~= op_views(operations@));
        assert(out@ == (SpecArgs {
            op: direct_ops_of(ev) + refs_view,
            force: entry_has_flag(ev, ArgOption::Force),
            restart: entry_has_flag(ev, ArgOption::Restart),
            simulate: entry_has_flag(ev, ArgOption::Simulate),
            usage: false,
        }));
    }
    match out.validate() {
        Ok(_) => Ok(out),
        Err(e) => Err(e),
    }
}

/// A rendered, prefixed hexadecimal literal of width at most sixteen
/// parses back to its value, and holds no grammar delimiter.
proof fn lemma_hex_literal_parses(v: u64, m: nat)
    requires
        m <= 16,
    ensures
        ({
            let lit = seq!['0', 'x'] + hex_render(v as nat, m);
            &&& parse_num_hex_first(lit) == Ok::<u64, SpecError>(v)
            &&& !lit.contains(':')
            &&& !lit.contains('(')
            &&& !lit.contains(')')
            &&& !lit.contains('=')
            &&& lit.len() >= 3
        }),
{
    let hr = hex_render(v as nat, m);
    let lit = seq!['0', 'x'] + hr;
    lemma_hex_render_parse(v as nat, m);
    lemma_pow16_16();
    lemma_hex_render_len(v as nat, m, 16);
    assert(lit.len() == 2 + hr.len());
    assert(lit[0] == '0' && lit[1] == 'x');
    assert(lit.skip(2) =~= hr);
    lemma_small_mod(v as nat, accum_mod());
    assert(parse_hex_spec(lit) == Ok::<u64, SpecError>(v));
    lemma_digits_not_special(hr);
    text::lemma_contains_pair('0', 'x', ':');
    text::lemma_contains_pair('0', 'x', '(');
    text::lemma_contains_pair('0', 'x', ')');
    text::lemma_contains_pair('0', 'x', '=');
    text::lemma_contains_concat(seq!['0', 'x'], hr, ':');
    text::lemma_contains_concat(seq!['0', 'x'], hr, '(');
    text::lemma_contains_concat(seq!['0', 'x'], hr, ')');
    text::lemma_contains_concat(seq!['0', 'x'], hr, '=');
}

/// A rendered decimal literal parses back to its value, decimal being
/// tried first, and holds no grammar delimiter.
proof fn lemma_dec_literal_parses(v: u64)
    ensures
        parse_num_dec_first(dec_render(v as nat)) == Ok::<u64, SpecError>(v),
        !dec_render(v as nat).contains(':'),
        !dec_render(v as nat).contains('('),
        !dec_render(v as nat).contains(')'),
        !dec_render(v as nat).contains('='),
{
    lemma_dec_render_parse(v as nat);
    lemma_small_mod(v as nat, accum_mod());
    assert(parse_dec_spec(dec_render(v as nat)) == Ok::<u64, SpecError>(v));
    lemma_digits_not_special(dec_render(v as nat));
}

/// Appending a bracketed decimal literal to bracket-free text splits off
/// exactly the literal again.
proof fn lemma_bracket_suffix(a: Seq<char>, v: u64)
    requires
        !a.contains('('),
    ensures
        ({
            let d = dec_render(v as nat);
            let w = a + seq!['('] + (d + seq![')']);
            &&& w.contains('(')
            &&& text::split_spec(w, '(') == seq![a, d + seq![')']]
            &&& text::strip_last_spec(d + seq![')'], ')') == Some(d)
            &&& parse_num_dec_first(d) == Ok::<u64, SpecError>(v)
        }),
{
    let d = dec_render(v as nat);
    let w = a + seq!['('] + (d + seq![')']);
    lemma_dec_literal_parses(v);
    text::lemma_contains_singleton(')', '(');
    text::lemma_contains_concat(d, seq![')'], '(');
    text::lemma_split_two(a, d + seq![')'], '(');
    assert(w[a.len() as int] == '(');
    assert((d + seq![')']).last() == ')');
    assert((d + seq![')']).drop_last() =~= d);
}

/// Round-trip: rendering a write operation as a token and parsing the
/// token back yields the same operation.  The operation must be valid:
/// the value fits the size, the size lies between one and eight bytes,
/// and the name is non-empty and free of the offset-indicator and
/// opening-bracket characters, which the grammar reserves.
#[verifier::rlimit(100)]
#[verifier::spinoff_prover]
pub proof fn lemma_write_round_trip(op: SpecOperation)
    requires
        op.action is Write,
        op_fits(op),
        1 <= op.target.size <= 8,
        op.target.name.len() > 0,
        !op.target.name.contains(':'),
        !op.target.name.contains('('),
    ensures
        parse_operation_spec(
            render_with_value(
                op,
                le_bytes_spec(op.action->Write_0 as nat, op.target.size as nat),
            ),
        ) == Ok::<SpecOperation, SpecError>(op),
{
    let v = op.action->Write_0;
    let name = op.target.name;
    let id = op.target.id;
    let offset = op.target.offset;
    let size = op.target.size;
    let bytes = le_bytes_spec(v as nat, size as nat);

    // The rendered value buffer denotes the written value again.
    vstd::arithmetic::power2::lemma2_to64_rest();
    if size < 8 {
        assert((v as nat) < pow2((8 * size) as nat));
    } else {
        assert((v as nat) < pow2(64));
    }
    lemma_le_bytes_round_trip(v as nat, size as nat);
    assert(le_bytes_value(bytes) == v as nat);

    let ox = seq!['0', 'x'];
    let hroff = hex_render(offset as nat, 4);
    let hrval = hex_render(v as nat, (2 * size) as nat);
    let idr = match id {
        Some(i) => seq!['('] + dec_render(i as nat) + seq![')'],
        None => Seq::<char>::empty(),
    };
    let sizer = if size == 1 {
        Seq::<char>::empty()
    } else {
        seq!['('] + dec_render(size as nat) + seq![')']
    };
    let namepart = name + idr;
    let valtext = ox + hrval;
    let lefttext = (ox + hroff) + sizer;
    let offsetpart = lefttext + seq!['='] + valtext;
    let token = render_with_value(op, bytes);
    assert(token =~= namepart + seq![':'] + offsetpart);

    lemma_hex_literal_parses(offset, 4);
    lemma_hex_literal_parses(v, (2 * size) as nat);

    // The name part holds no offset indicator.
    match id {
        Some(i) => {
            lemma_dec_literal_parses(i);
            text::lemma_contains_singleton('(', ':');
            text::lemma_contains_singleton(')', ':');
            text::lemma_contains_concat(seq!['('], dec_render(i as nat), ':');
            text::lemma_contains_concat(
                seq!['('] + dec_render(i as nat),
                seq![')'],
                ':',
            );
        },
        None => {
            text::lemma_contains_empty(':');
        },
    }
    text::lemma_contains_concat(name, idr, ':');
    assert(!namepart.contains(':'));

    // The offset part holds no offset indicator either.
    {
            if size != 1 {
                lemma_dec_literal_parses(size);
                text::lemma_contains_singleton('(', ':');
                text::lemma_contains_singleton(')', ':');
                text::lemma_contains_concat(seq!['('], dec_render(size as nat), ':');
                text::lemma_contains_concat(
                    seq!['('] + dec_render(size as nat),
                    seq![')'],
                    ':',
                );
                text::lemma_contains_concat(seq!['('], dec_render(size as nat), '=');
                text::lemma_contains_concat(
                    seq!['('] + dec_render(size as nat),
                    seq![')'],
                    '=',
                );
                text::lemma_contains_concat(seq!['('], dec_render(size as nat), '(');
                text::lemma_contains_concat(
                    seq!['('] + dec_render(size as nat),
                    seq![')'],
                    '(',
                );
                text::lemma_contains_singleton('(', '=');
                text::lemma_contains_singleton(')', '=');
                text::lemma_contains_singleton('(', '(');
                text::lemma_contains_singleton(')', '(');
            } else {
                text::lemma_contains_empty(':');
                text::lemma_contains_empty('=');
                text::lemma_contains_empty('(');
            }
    }
    text::lemma_contains_concat(ox + hroff, sizer, ':');
    text::lemma_contains_concat(ox + hroff, sizer, '=');
    text::lemma_contains_singleton('=', ':');
    text::lemma_contains_concat(lefttext, seq!['='], ':');
    text::lemma_contains_concat(lefttext + seq!['='], valtext, ':');
    assert(!offsetpart.contains(':'));

    // The token splits at its one offset indicator.
    text::lemma_split_two(namepart, offsetpart, ':');
    assert(token == namepart + seq![':'] + offsetpart);
    let pieces = text::split_spec(token, ':');
    assert(pieces == seq![namepart, offsetpart]);
    assert(pieces.len() == 2 && pieces[0] == namepart && pieces[1] == offsetpart);

    // The name part parses back to the name and the identifier.
    match id {
        None => {
            assert(namepart =~= name);
            assert(parse_name_spec(namepart) == Ok::<(Seq<char>, Option<u64>), SpecError>(
                (name, None::<u64>),
            ));
        },
        Some(i) => {
            lemma_bracket_suffix(name, i);
            assert(namepart =~= name + seq!['('] + (dec_render(i as nat) + seq![')']));
            lemma_small_mod(i as nat, accum_mod());
            assert(parse_name_spec(namepart) == Ok::<(Seq<char>, Option<u64>), SpecError>(
                (name, Some(i)),
            ));
        },
    }

    // The offset part parses back to the offset text and the write.
    assert(offsetpart[lefttext.len() as int] == '=');
    assert(offsetpart.contains('='));
    assert(!lefttext.contains('='));
    assert(!valtext.contains('='));
    text::lemma_split_two(lefttext, valtext, '=');
    assert(offsetpart == lefttext + seq!['='] + valtext);
    assert(parse_num_hex_first(valtext) == Ok::<u64, SpecError>(v));
    assert(parse_action_spec(offsetpart) == Ok::<(Seq<char>, OperationType), SpecError>(
        (lefttext, OperationType::Write(v)),
    ));

    // The remaining offset text parses back to the size and the offset.
    if size == 1 {
        assert(lefttext =~= ox + hroff);
        assert(!lefttext.contains('('));
        assert(parse_size_spec(lefttext) == Ok::<(Seq<char>, u64), SpecError>(
            (lefttext, 1u64),
        ));
    } else {
        lemma_bracket_suffix(ox + hroff, size);
        assert(lefttext =~= (ox + hroff) + seq!['('] + (dec_render(size as nat) + seq![
            ')',
        ]));
        assert(lefttext[(ox + hroff).len() as int] == '(');
        assert(lefttext.contains('('));
        lemma_small_mod(size as nat, accum_mod());
        assert(parse_size_spec(lefttext) == Ok::<(Seq<char>, u64), SpecError>(
            (ox + hroff, size),
        ));
    }
    assert(parse_num_hex_first(ox + hroff) == Ok::<u64, SpecError>(offset));

    assert(parse_operation_spec(token) == Ok::<SpecOperation, SpecError>(
        SpecOperation {
            action: OperationType::Write(v),
            target: SpecTarget { id, name, offset, size },
        },
    ));
    assert(op.action == OperationType::Write(v));
    assert(op.target == (SpecTarget { id, name, offset, size }));
}

} // verus!
