//! Data types shared by the front-ends: targets, actions, operations,
//! option flags, argument sets, script entries and value buffers.

use vstd::prelude::*;
use vstd::arithmetic::power2::pow2;
use crate::error::AppError;
use crate::error::SpecError;

verus! {

/// Mathematical image of `OperationTarget`.
pub ghost struct SpecTarget {
    pub id: Option<u64>,
    pub name: Seq<char>,
    pub offset: u64,
    pub size: u64,
}

/// Identifies a byte range in a platform variable: the variable's name, an
/// optional identifier telling namesakes apart, the offset of the range
/// within the variable, and its size in bytes (1 when not written out).
#[derive(Clone, Debug, PartialEq, Eq)]
pub struct OperationTarget {
    pub id: Option<u64>,
    pub name: Vec<char>,
    pub offset: u64,
    pub size: u64,
}

impl View for OperationTarget {
    type V = SpecTarget;

    open spec fn view(&self) -> SpecTarget {
        SpecTarget { id: self.id, name: self.name@, offset: self.offset, size: self.size }
    }
}

/// Whether a value is being retrieved or written, and the new value for a
/// write.
#[derive(Clone, Copy, Debug, PartialEq, Eq, Structural)]
pub enum OperationType {
    Get,
    Write(u64),
}

/// Mathematical image of `ArgOperation`.
pub ghost struct SpecOperation {
    pub action: OperationType,
    pub target: SpecTarget,
}

/// One operation: the action to take and the target to take it on.
#[derive(Clone, Debug, PartialEq, Eq)]
pub struct ArgOperation {
    pub action: OperationType,
    pub target: OperationTarget,
}

impl View for ArgOperation {
    type V = SpecOperation;

    open spec fn view(&self) -> SpecOperation {
        SpecOperation { action: self.action, target: self.target@ }
    }
}

/// The global option flags an argument can set.
#[derive(Clone, Copy, Debug, PartialEq, Eq, Structural)]
pub enum ArgOption {
    /// Force-write even when the value is already as requested.
    Force,
    /// Restart the system on completion.
    Restart,
    /// Simulate: report what would change, write nothing.
    Simulate,
    /// Show usage information and do nothing else.
    Usage,
}

/// Mathematical image of `Arg`.
pub ghost enum SpecArg {
    Operation(SpecOperation),
    Flag(ArgOption),
}

/// A classified command-line token: an operation or an option flag.
#[derive(Debug)]
pub enum Arg {
    Operation(ArgOperation),
    Flag(ArgOption),
}

impl View for Arg {
    type V = SpecArg;

    open spec fn view(&self) -> SpecArg {
        match self {
            Arg::Operation(op) => SpecArg::Operation(op@),
            Arg::Flag(o) => SpecArg::Flag(*o),
        }
    }
}

/// Mathematical image of `Args`.
pub ghost struct SpecArgs {
    pub op: Seq<SpecOperation>,
    pub force: bool,
    pub restart: bool,
    pub simulate: bool,
    pub usage: bool,
}

/// Everything one invocation asks for: the operations in the order they
/// were written, and the global option flags.
#[derive(Debug, PartialEq, Eq)]
pub struct Args {
    pub op: Vec<ArgOperation>,
    pub force: bool,
    pub restart: bool,
    pub simulate: bool,
    pub usage: bool,
}

impl View for Args {
    type V = SpecArgs;

    open spec fn view(&self) -> SpecArgs {
        SpecArgs {
            op: self.op@.map_values(|o: ArgOperation| o@),
            force: self.force,
            restart: self.restart,
            simulate: self.simulate,
            usage: self.usage,
        }
    }
}

/// Mathematical image of `InputEntry`.
pub ghost enum SpecEntry {
    Operation(SpecOperation),
    Flag(ArgOption),
    TargetDefinition { name: Seq<char>, target: SpecTarget },
    TargetReference { name: Seq<char>, action: OperationType },
}

/// What one script line can turn into: an operation, an option directive,
/// an alias definition, or an alias reference.
#[derive(Debug, PartialEq, Eq)]
pub enum InputEntry {
    Operation(ArgOperation),
    Flag(ArgOption),
    /// Binds an alias to a target, to be referenced elsewhere in the script.
    TargetDefinition { name: Vec<char>, target: OperationTarget },
    /// References a target defined elsewhere in the script.
    TargetReference { name: Vec<char>, action: OperationType },
}

impl View for InputEntry {
    type V = SpecEntry;

    open spec fn view(&self) -> SpecEntry {
        match self {
            InputEntry::Operation(op) => SpecEntry::Operation(op@),
            InputEntry::Flag(o) => SpecEntry::Flag(*o),
            InputEntry::TargetDefinition { name, target } => SpecEntry::TargetDefinition {
                name: name@,
                target: target@,
            },
            InputEntry::TargetReference { name, action } => SpecEntry::TargetReference {
                name: name@,
                action: *action,
            },
        }
    }
}

impl InputEntry {
    /// Retrieval of the alias and target of a definition entry.
    pub fn as_def(&self) -> (r: (&Vec<char>, &OperationTarget))
        requires
            self is TargetDefinition,
        ensures
            self@ == (SpecEntry::TargetDefinition { name: r.0@, target: r.1@ }),
    {
        match self {
            InputEntry::TargetDefinition { name, target } => (name, target),
            _ => unreached(),
        }
    }

    /// Retrieval of the operation of an operation entry.
    pub fn as_op(&self) -> (r: &ArgOperation)
        requires
            self is Operation,
        ensures
            self@ == SpecEntry::Operation(r@),
    {
        match self {
            InputEntry::Operation(op) => op,
            _ => unreached(),
        }
    }
}

/// Whether `value` fits in `size` bytes: strictly below 2^(8*size).
pub open spec fn value_fits(value: u64, size: u64) -> bool {
    size >= 8 || (value as nat) < pow2((8 * size) as nat)
}

/// Whether an operation passes validation: a write's value must fit the
/// declared size; a read always passes.
pub open spec fn op_fits(op: SpecOperation) -> bool {
    match op.action {
        OperationType::Get => true,
        OperationType::Write(value) => value_fits(value, op.target.size),
    }
}

/// Executable form of `value_fits`.
pub fn value_fits_exec(value: u64, size: u64) -> (r: bool)
    ensures
        r == value_fits(value, size),
{
    if size >= 8 {
        true
    } else {
        let mut bound: u64 = 1;
        let mut i: u64 = 0;
        proof {
            vstd::arithmetic::power2::lemma2_to64();
        }
        while i < size
            invariant
                i <= size < 8,
                bound as nat == pow2((8 * i) as nat),
                bound <= 0x100000000000000,
            decreases size - i,
        {
            proof {
                vstd::arithmetic::power2::lemma2_to64();
                vstd::arithmetic::power2::lemma2_to64_rest();
                vstd::arithmetic::power2::lemma_pow2_adds((8 * i) as nat, 8);
                if ((8 * i) as nat) < 48 {
                    vstd::arithmetic::power2::lemma_pow2_strictly_increases(
                        (8 * i) as nat, 48);
                }
            }
            bound = bound * 256;
            i = i + 1;
        }
        value < bound
    }
}

/// The validation result for one operation.
pub open spec fn validate_op_spec(op: SpecOperation) -> Result<(), SpecError> {
    if op_fits(op) {
        Ok(())
    } else {
        Err(SpecError::ArgSizeMismatch(op.action->Write_0, op.target.size))
    }
}

/// The validation result for an operation list: the first write whose
/// value does not fit its size aborts validation.
pub open spec fn validate_ops_spec(ops: Seq<SpecOperation>) -> Result<(), SpecError>
    decreases ops.len(),
{
    if ops.len() == 0 {
        Ok(())
    } else if !op_fits(ops[0]) {
        validate_op_spec(ops[0])
    } else {
        validate_ops_spec(ops.skip(1))
    }
}

/// The validation result for a whole argument set: nothing is checked when
/// usage information was requested, since nothing else will be done.
pub open spec fn validate_args_spec(a: SpecArgs) -> Result<(), SpecError> {
    if a.usage {
        Ok(())
    } else {
        validate_ops_spec(a.op)
    }
}

impl ArgOperation {
    /// Checks that a write's value fits within the declared size of the
    /// target.
    pub fn validate(&self) -> (r: Result<(), AppError>)
        ensures
            match r {
                Ok(u) => validate_op_spec(self@) == Ok::<(), SpecError>(u),
                Err(e) => validate_op_spec(self@) == Err::<(), SpecError>(e@),
            },
    {
        match self.action {
            OperationType::Write(value) => {
                if value_fits_exec(value, self.target.size) {
                    Ok(())
                } else {
                    Err(AppError::ArgSizeMismatch(value, self.target.size))
                }
            },
            OperationType::Get => Ok(()),
        }
    }
}

impl Args {
    /// Validates every operation, stopping at the first failure.
    pub fn validate(&self) -> (r: Result<(), AppError>)
        ensures
            match r {
                Ok(u) => validate_args_spec(self@) == Ok::<(), SpecError>(u),
                Err(e) => validate_args_spec(self@) == Err::<(), SpecError>(e@),
            },
    {
        if self.usage {
            return Ok(());
        }
        let ghost ops = self@.op;
        proof {
            assert(ops.skip(0) =~= ops);
        }
        let mut i: usize = 0;
        while i < self.op.len()
            invariant
                !self.usage,
                i <= ops.len(),
                ops == self@.op,
                ops.len() == self.op@.len(),
                forall|j: int| 0 <= j < ops.len() ==> ops[j] == self.op@[j]@,
                validate_ops_spec(ops) == validate_ops_spec(ops.skip(i as int)),
            decreases self.op.len() - i,
        {
            let r = self.op[i].validate();
            proof {
                assert(ops.skip(i as int)[0] == ops[i as int]);
                assert(ops.skip(i as int).skip(1) =~= ops.skip(i + 1));
            }
            if let Err(e) = r {
                proof {
                    assert(validate_ops_spec(ops.skip(i as int)) == validate_op_spec(
                        ops[i as int]));
                }
                return Err(e);
            }
            i = i + 1;
        }
        proof {
            assert(ops.skip(ops.len() as int) =~= Seq::<SpecOperation>::empty());
        }
        Ok(())
    }
}

/// A byte buffer read from or written to a platform variable: the
/// little-endian encoding of a value, one byte per unit of a target size.
#[derive(Debug, PartialEq, Eq)]
pub struct UefiValue(pub Vec<u8>);

impl View for UefiValue {
    type V = Seq<u8>;

    open spec fn view(&self) -> Seq<u8> {
        self.0@
    }
}

/// The character for one digit value, in lower case; digit values reach
/// fifteen, for hexadecimal rendering.
pub open spec fn digit_char(d: nat) -> char {
    if d == 0 {
        '0'
    } else if d == 1 {
        '1'
    } else if d == 2 {
        '2'
    } else if d == 3 {
        '3'
    } else if d == 4 {
        '4'
    } else if d == 5 {
        '5'
    } else if d == 6 {
        '6'
    } else if d == 7 {
        '7'
    } else if d == 8 {
        '8'
    } else if d == 9 {
        '9'
    } else if d == 10 {
        'a'
    } else if d == 11 {
        'b'
    } else if d == 12 {
        'c'
    } else if d == 13 {
        'd'
    } else if d == 14 {
        'e'
    } else {
        'f'
    }
}

/// The decimal rendering of a value, most significant digit first.
pub open spec fn dec_render(v: nat) -> Seq<char>
    decreases v,
{
    if v < 10 {
        seq![digit_char(v)]
    } else {
        dec_render(v / 10).push(digit_char(v % 10))
    }
}

/// The hexadecimal rendering of a value, zero-padded on the left to at
/// least `min_digits` digits, without a prefix.
pub open spec fn hex_render(v: nat, min_digits: nat) -> Seq<char>
    decreases min_digits, v,
{
    if v < 16 && min_digits <= 1 {
        seq![digit_char(v)]
    } else {
        let m = if min_digits == 0 {
            0
        } else {
            (min_digits - 1) as nat
        };
        hex_render(v / 16, m).push(digit_char(v % 16))
    }
}

/// The little-endian byte rendering of a value in `len` bytes: the low
/// `len` bytes of the value, least significant first.
pub open spec fn le_bytes_spec(v: nat, len: nat) -> Seq<u8>
    decreases len,
{
    if len == 0 {
        Seq::empty()
    } else {
        seq![(v % 256) as u8] + le_bytes_spec(v / 256, (len - 1) as nat)
    }
}

/// The value a little-endian byte buffer denotes.
pub open spec fn le_bytes_value(bs: Seq<u8>) -> nat
    decreases bs.len(),
{
    if bs.len() == 0 {
        0
    } else {
        (bs[0] + 256 * le_bytes_value(bs.skip(1))) as nat
    }
}

/// Rendering a value that fits in `len` bytes and reading the bytes back
/// recovers the value.
pub proof fn lemma_le_bytes_round_trip(v: nat, len: nat)
    requires
        v < pow2((8 * len) as nat),
    ensures
        le_bytes_value(le_bytes_spec(v, len)) == v,
    decreases len,
{
    vstd::arithmetic::power2::lemma2_to64();
    if len == 0 {
    } else {
        let rest = le_bytes_spec(v / 256, (len - 1) as nat);
        assert(le_bytes_spec(v, len) == seq![(v % 256) as u8] + rest);
        assert((seq![(v % 256) as u8] + rest)[0] == (v % 256) as u8);
        assert((seq![(v % 256) as u8] + rest).skip(1) =~= rest);
        vstd::arithmetic::power2::lemma_pow2_adds(8, (8 * (len - 1)) as nat);
        vstd::arithmetic::power2::lemma_pow2_pos((8 * (len - 1)) as nat);
        assert(v / 256 < pow2((8 * (len - 1)) as nat)) by (nonlinear_arith)
            requires
                v < 256 * pow2((8 * (len - 1)) as nat),
                pow2((8 * (len - 1)) as nat) > 0,
        {}
        lemma_le_bytes_round_trip(v / 256, (len - 1) as nat);
        vstd::arithmetic::div_mod::lemma_fundamental_div_mod(v as int, 256);
    }
}

/// A little-endian buffer of `len` bytes denotes a value below 2^(8*len).
pub proof fn lemma_le_bytes_value_bound(bs: Seq<u8>)
    ensures
        le_bytes_value(bs) < pow2((8 * bs.len()) as nat),
    decreases bs.len(),
{
    vstd::arithmetic::power2::lemma_pow2_pos((8 * bs.len()) as nat);
    if bs.len() > 0 {
        lemma_le_bytes_value_bound(bs.skip(1));
        vstd::arithmetic::power2::lemma_pow2_adds(8, (8 * (bs.len() - 1)) as nat);
        vstd::arithmetic::power2::lemma2_to64();
        assert(le_bytes_value(bs) < 256 + 256 * le_bytes_value(bs.skip(1)));
        assert(256 + 256 * le_bytes_value(bs.skip(1)) <= 256 * pow2(
            (8 * (bs.len() - 1)) as nat,
        )) by (nonlinear_arith)
            requires
                le_bytes_value(bs.skip(1)) + 1 <= pow2((8 * (bs.len() - 1)) as nat),
        {}
    }
}

/// The digit characters.
fn digit_char_exec(d: u64) -> (r: char)
    requires
        d < 16,
    ensures
        r == digit_char(d as nat),
{
    if d == 0 {
        '0'
    } else if d == 1 {
        '1'
    } else if d == 2 {
        '2'
    } else if d == 3 {
        '3'
    } else if d == 4 {
        '4'
    } else if d == 5 {
        '5'
    } else if d == 6 {
        '6'
    } else if d == 7 {
        '7'
    } else if d == 8 {
        '8'
    } else if d == 9 {
        '9'
    } else if d == 10 {
        'a'
    } else if d == 11 {
        'b'
    } else if d == 12 {
        'c'
    } else if d == 13 {
        'd'
    } else if d == 14 {
        'e'
    } else {
        'f'
    }
}

/// Renders a value in decimal.
pub fn fmt_dec(v: u64) -> (r: Vec<char>)
    ensures
        r@ == dec_render(v as nat),
    decreases v,
{
    if v < 10 {
        let mut r: Vec<char> = Vec::new();
        r.push(digit_char_exec(v));
        proof {
            assert(r@ =~= seq![digit_char(v as nat)]);
        }
        r
    } else {
        let mut r = fmt_dec(v / 10);
        r.push(digit_char_exec(v % 10));
        r
    }
}

/// Renders a value in hexadecimal, zero-padded on the left to at least
/// `min_digits` digits, without a prefix.
pub fn fmt_hex(v: u64, min_digits: usize) -> (r: Vec<char>)
    ensures
        r@ == hex_render(v as nat, min_digits as nat),
    decreases min_digits, v,
{
    if v < 16 && min_digits <= 1 {
        let mut r: Vec<char> = Vec::new();
        r.push(digit_char_exec(v));
        proof {
            assert(r@ =~= seq![digit_char(v as nat)]);
        }
        r
    } else {
        let m: usize = if min_digits == 0 {
            0
        } else {
            min_digits - 1
        };
        let mut r = fmt_hex(v / 16, m);
        r.push(digit_char_exec(v % 16));
        r
    }
}

impl UefiValue {
    /// Assignment from a given value and length: the low `length` bytes
    /// of the value, least significant first.
    pub fn from_usize(value: usize, length: usize) -> (r: Self)
        requires
            length <= 8,
        ensures
            r@ == le_bytes_spec(value as nat, length as nat),
    {
        let mut v: u64 = value as u64;
        let mut bytes: Vec<u8> = Vec::new();
        let mut k: usize = 0;
        proof {
            assert(le_bytes_spec(value as nat, length as nat) =~= bytes@
                + le_bytes_spec(v as nat, (length - k) as nat));
        }
        while k < length
            invariant
                k <= length,
                bytes@.len() == k,
                le_bytes_spec(value as nat, length as nat) =~= bytes@ + le_bytes_spec(
                    v as nat,
                    (length - k) as nat,
                ),
            decreases length - k,
        {
            let ghost pre = bytes@;
            let ghost v_pre = v as nat;
            bytes.push((v % 256) as u8);
            v = v / 256;
            proof {
                assert(le_bytes_spec(v_pre, (length - k) as nat) =~= seq![
                    (v_pre % 256) as u8,
                ] + le_bytes_spec(v_pre / 256, (length - k - 1) as nat));
                assert(pre + (seq![(v_pre % 256) as u8] + le_bytes_spec(
                    v_pre / 256,
                    (length - k - 1) as nat,
                )) =~= bytes@ + le_bytes_spec(v as nat, (length - (k + 1)) as nat));
            }
            k = k + 1;
        }
        proof {
            assert(le_bytes_spec(v as nat, 0) =~= Seq::<u8>::empty());
            assert(bytes@ + Seq::<u8>::empty() =~= bytes@);
        }
        UefiValue(bytes)
    }

    /// Retrieval as text: the denoted value in hexadecimal, with the
    /// `0x` prefix, zero-padded to two digits per byte of the given
    /// length.
    pub fn to_string_with_size(&self, length: usize) -> (r: Vec<char>)
        requires
            self@.len() <= 8,
            length <= 8,
        ensures
            r@ == seq!['0', 'x'] + hex_render(le_bytes_value(self@), (2 * length) as nat),
    {
        let ghost bv = self@;
        proof {
            lemma_le_bytes_value_bound(bv);
            vstd::arithmetic::power2::lemma2_to64_rest();
            if bv.len() < 8 {
                vstd::arithmetic::power2::lemma_pow2_strictly_increases(
                    (8 * bv.len()) as nat, 64);
            }
        }
        let n = self.0.len();
        let mut v: u64 = 0;
        let mut j: usize = n;
        proof {
            assert(bv.skip(n as int) =~= Seq::<u8>::empty());
        }
        while j > 0
            invariant
                j <= n == bv.len() <= 8,
                bv == self@,
                v as nat == le_bytes_value(bv.skip(j as int)),
            decreases j,
        {
            j = j - 1;
            proof {
                lemma_le_bytes_value_bound(bv.skip(j as int));
                lemma_le_bytes_value_bound(bv.skip(j + 1));
                vstd::arithmetic::power2::lemma2_to64();
                vstd::arithmetic::power2::lemma2_to64_rest();
                if bv.skip(j as int).len() < 8 {
                    vstd::arithmetic::power2::lemma_pow2_strictly_increases(
                        (8 * bv.skip(j as int).len()) as nat, 64);
                }
                assert(bv.skip(j as int)[0] == bv[j as int]);
                assert(bv.skip(j as int).skip(1) =~= bv.skip(j + 1));
            }
            v = v * 256 + (self.0[j] as u64);
        }
        let digits = fmt_hex(v, 2 * length);
        let mut r: Vec<char> = Vec::new();
        r.push('0');
        r.push('x');
        let mut digits = digits;
        r.append(&mut digits);
        proof {
            assert(r@ =~= seq!['0', 'x'] + hex_render(v as nat, (2 * length) as nat));
            assert(bv.skip(0) =~= bv);
        }
        r
    }
}

/// The text rendering of an operation together with a value buffer: the
/// name, the identifier in brackets when present, the offset in
/// hexadecimal padded to four digits, the size in brackets when it is not
/// one byte, and the buffer's value in hexadecimal padded to two digits
/// per byte.
pub open spec fn render_with_value(op: SpecOperation, bytes: Seq<u8>) -> Seq<char> {
    op.target.name + (match op.target.id {
        Some(id) => seq!['('] + dec_render(id as nat) + seq![')'],
        None => Seq::empty(),
    }) + seq![':'] + seq!['0', 'x'] + hex_render(op.target.offset as nat, 4) + (
    if op.target.size == 1 {
        Seq::empty()
    } else {
        seq!['('] + dec_render(op.target.size as nat) + seq![')']
    }) + seq!['='] + seq!['0', 'x'] + hex_render(
        le_bytes_value(bytes),
        (2 * op.target.size) as nat,
    )
}

impl ArgOperation {
    /// Retrieval as text, together with the given current value.
    pub fn to_string_with_val(&self, value: &UefiValue) -> (r: Vec<char>)
        requires
            self.target.size <= 8,
            value@.len() <= 8,
        ensures
            r@ == render_with_value(self@, value@),
    {
        let mut r = crate::text::dup(&self.target.name);
        match self.target.id {
            Some(id) => {
                r.push('(');
                let mut id_text = fmt_dec(id);
                r.append(&mut id_text);
                r.push(')');
            },
            None => {},
        }
        r.push(':');
        r.push('0');
        r.push('x');
        let mut offset_text = fmt_hex(self.target.offset, 4);
        r.append(&mut offset_text);
        if self.target.size != 1 {
            r.push('(');
            let mut size_text = fmt_dec(self.target.size);
            r.append(&mut size_text);
            r.push(')');
        }
        r.push('=');
        let mut value_text = value.to_string_with_size(self.target.size as usize);
        r.append(&mut value_text);
        proof {
            assert(r@ =~= render_with_value(self@, value@));
        }
        r
    }
}

} // verus!
