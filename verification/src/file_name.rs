//! The names of segment files. A segment file is named by the offset of its
//! first byte, written as twenty decimal digits, so that the names sort as
//! the offsets do and a segment is found by bisection.

use vstd::arithmetic::div_mod::lemma_div_denominator;
use vstd::arithmetic::div_mod::lemma_fundamental_div_mod;
use vstd::prelude::*;

verus! {

/// The length of a segment file's name.
pub const FILE_NAME_LENGTH: usize = 20;

/// The `n`-th power of ten.
pub open spec fn pow10(n: nat) -> nat
    decreases n,
{
    if n == 0 {
        1
    } else {
        10 * pow10((n - 1) as nat)
    }
}

/// The digit, as a character code, at place `i` of the name of `offset`.
pub open spec fn name_digit(offset: u64, i: int) -> u8 {
    (48 + (offset as nat / pow10((19 - i) as nat)) % 10) as u8
}

/// The name of the segment file that starts at `offset`.
pub open spec fn file_name(offset: u64) -> Seq<u8> {
    Seq::new(20, |i: int| name_digit(offset, i))
}

/// Whether `byte` is the character code of a decimal digit.
pub open spec fn is_digit(byte: u8) -> bool {
    48 <= byte <= 57
}

/// The number that a row of decimal digits spells.
pub open spec fn name_value(name: Seq<u8>) -> nat
    decreases name.len(),
{
    if name.len() == 0 {
        0
    } else {
        name_value(name.drop_last()) * 10 + (name.last() - 48) as nat
    }
}

/// Whether `name` is the name of a segment file: twenty decimal digits that
/// spell an offset.
pub open spec fn is_file_name(name: Seq<u8>) -> bool {
    &&& name.len() == 20
    &&& forall|i: int| 0 <= i < name.len() ==> is_digit(#[trigger] name[i])
    &&& name_value(name) <= u64::MAX
}

proof fn lemma_pow10_positive(n: nat)
    ensures
        pow10(n) > 0,
    decreases n,
{
    if n > 0 {
        lemma_pow10_positive((n - 1) as nat);
    }
}

proof fn lemma_pow10_19()
    ensures
        pow10(19) == 10_000_000_000_000_000_000,
        pow10(20) > u64::MAX,
{
    reveal_with_fuel(pow10, 21);
}

/// The first `i` digits of a name spell the offset without its last
/// `20 - i` digits.
proof fn lemma_prefix_value(offset: u64, i: int)
    requires
        0 <= i <= 20,
    ensures
        name_value(file_name(offset).subrange(0, i)) == offset as nat / pow10((20 - i) as nat),
    decreases i,
{
    let name = file_name(offset);
    let x = offset as int;
    if i == 0 {
        lemma_pow10_19();
        assert(name.subrange(0, 0).len() == 0);
        assert(x / pow10(20) as int == 0) by {
            vstd::arithmetic::div_mod::lemma_basic_div(x, pow10(20) as int);
        }
    } else {
        lemma_prefix_value(offset, i - 1);
        let prefix = name.subrange(0, i);
        assert(prefix.drop_last() =~= name.subrange(0, i - 1));
        assert(prefix.last() == name_digit(offset, i - 1));
        let low = pow10((20 - i) as nat) as int;
        lemma_pow10_positive((20 - i) as nat);
        let y = x / low;
        assert(pow10((20 - i + 1) as nat) == 10 * low);
        lemma_div_denominator(x, low, 10);
        assert(x / (low * 10) == y / 10);
        assert(low * 10 == 10 * low) by (nonlinear_arith);
        lemma_fundamental_div_mod(y, 10);
    }
}

/// A name spells the offset that it was made of, and names are file names.
pub proof fn lemma_file_name_round_trip(offset: u64)
    ensures
        is_file_name(file_name(offset)),
        name_value(file_name(offset)) == offset,
{
    let name = file_name(offset);
    lemma_prefix_value(offset, 20);
    assert(name.subrange(0, 20) =~= name);
    assert(pow10(0) == 1);
    assert(offset as nat / 1 == offset as nat);
    assert forall|i: int| 0 <= i < name.len() implies is_digit(#[trigger] name[i]) by {
        lemma_pow10_positive((19 - i) as nat);
    }
}

/// A longer row of digits spells no smaller a number than its start.
proof fn lemma_value_grows(name: Seq<u8>, i: int)
    requires
        0 <= i <= name.len(),
        forall|j: int| 0 <= j < name.len() ==> is_digit(#[trigger] name[j]),
    ensures
        name_value(name.subrange(0, i)) <= name_value(name),
    decreases name.len() - i,
{
    if i < name.len() {
        lemma_value_grows(name, i + 1);
        let longer = name.subrange(0, i + 1);
        assert(longer.drop_last() =~= name.subrange(0, i));
        assert(is_digit(name[i]));
        assert(longer.last() == name[i]);
    } else {
        assert(name.subrange(0, i) =~= name);
    }
}

/// Writes the name of the segment file that starts at `offset`.
pub fn offset_to_file_name(offset: u64) -> (name: Vec<u8>)
    ensures
        name@ == file_name(offset),
{
    let mut name: Vec<u8> = Vec::new();
    let mut divisor: u64 = 10_000_000_000_000_000_000;
    let mut i: usize = 0;
    proof {
        lemma_pow10_19();
    }
    while i < 20
        invariant
            i <= 20,
            name@.len() == i,
            i < 20 ==> divisor == pow10((19 - i) as nat),
            forall|j: int| 0 <= j < i ==> name@[j] == name_digit(offset, j),
        decreases 20 - i,
    {
        proof {
            lemma_pow10_positive((19 - i) as nat);
        }
        let digit: u64 = (offset / divisor) % 10;
        name.push(48 + digit as u8);
        proof {
            if i < 19 {
                assert(pow10((19 - i) as nat) == 10 * pow10((18 - i) as nat));
            }
        }
        divisor = divisor / 10;
        i += 1;
    }
    assert(name@ =~= file_name(offset));
    name
}

/// Reads the offset that a segment file's name spells; none if the name is
/// not that of a segment file.
pub fn file_name_to_offset(name: &[u8]) -> (offset: Option<u64>)
    ensures
        offset is Some <==> is_file_name(name@),
        offset matches Some(o) ==> o == name_value(name@),
{
    if name.len() != 20 {
        return None;
    }
    let mut value: u64 = 0;
    let mut i: usize = 0;
    while i < 20
        invariant
            i <= 20,
            name@.len() == 20,
            value == name_value(name@.subrange(0, i as int)),
            forall|j: int| 0 <= j < i ==> is_digit(#[trigger] name@[j]),
        decreases 20 - i,
    {
        let byte = name[i];
        if byte < 48 || byte > 57 {
            assert(!is_digit(name@[i as int]));
            return None;
        }
        let digit: u64 = (byte - 48) as u64;
        proof {
            let longer = name@.subrange(0, i + 1);
            assert(longer.drop_last() =~= name@.subrange(0, i as int));
            assert(longer.last() == byte);
        }
        if value > (u64::MAX - digit) / 10 {
            proof {
                if forall|j: int| 0 <= j < name@.len() ==> is_digit(#[trigger] name@[j]) {
                    lemma_value_grows(name@, i + 1);
                }
            }
            return None;
        }
        value = value * 10 + digit;
        i += 1;
    }
    assert(name@.subrange(0, 20) =~= name@);
    Some(value)
}

/// Whether the offsets follow each other by `step`: each is the one before
/// it plus `step`, as the base offsets of a log's segment files have to.
pub open spec fn in_step(bases: Seq<u64>, step: u64) -> bool {
    forall|i: int| 0 <= i < bases.len() ==> #[trigger] bases[i] == bases[0] + i * step
}

/// Checks that the base offsets found follow each other by `step`, so that
/// no segment file is missing between the first and the last.
pub fn follow_in_step(bases: &[u64], step: u64) -> (yes: bool)
    ensures
        yes == in_step(bases@, step),
{
    let n = bases.len();
    let mut i: usize = 1;
    if n == 0 {
        return true;
    }
    assert(bases@[0] == bases@[0] + 0 * step);
    while i < n
        invariant
            1 <= i <= n,
            n == bases@.len(),
            forall|j: int| 0 <= j < i ==> #[trigger] bases@[j] == bases@[0] + j * step,
        decreases n - i,
    {
        let before = bases[i - 1];
        proof {
            assert(i * step == (i - 1) * step + step) by (nonlinear_arith);
        }
        if before > u64::MAX - step || bases[i] != before + step {
            assert(bases@[i as int] != bases@[0] + i * step);
            return false;
        }
        i += 1;
    }
    true
}

/// Whether the offsets rise from each to the next.
pub open spec fn rising(bases: Seq<u64>) -> bool {
    forall|i: int, j: int| 0 <= i < j < bases.len() ==> bases[i] < bases[j]
}

/// Finds, among the base offsets of segment files in rising order, the
/// segment that may hold `offset`: the last one that starts at or below it.
/// None if every segment starts above it.
pub fn find_segment(bases: &[u64], offset: u64) -> (found: Option<usize>)
    requires
        rising(bases@),
    ensures
        found is None <==> forall|i: int| 0 <= i < bases@.len() ==> bases@[i] > offset,
        found matches Some(k) ==> {
            &&& k < bases@.len()
            &&& bases@[k as int] <= offset
            &&& forall|i: int| k < i < bases@.len() ==> bases@[i] > offset
        },
{
    let mut low: usize = 0;
    let mut high: usize = bases.len();
    while low < high
        invariant
            low <= high <= bases@.len(),
            rising(bases@),
            forall|i: int| 0 <= i < low ==> bases@[i] <= offset,
            forall|i: int| high <= i < bases@.len() ==> bases@[i] > offset,
        decreases high - low,
    {
        let mid = low + (high - low) / 2;
        if bases[mid] <= offset {
            low = mid + 1;
        } else {
            high = mid;
        }
    }
    if low == 0 {
        None
    } else {
        assert(bases@[low - 1] <= offset);
        Some(low - 1)
    }
}

} // verus!
