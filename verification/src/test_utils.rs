//! Value pickers and fixtures for exercising the library. Each picker returns one fixed
//! value that meets its description, so that a run can be repeated exactly.
#![allow(non_camel_case_types)]

use vstd::prelude::*;

verus! {

/// Which side of a transfer a fixture sets up (`NoSetup`: neither).
#[derive(Clone, Copy, Debug, PartialEq, Eq)]
pub enum UtCfSetup {
    NoSetup,
    Tx,
    Rx,
}

/// Identifies a stubbed function.
#[derive(Clone, Copy, Debug, PartialEq, Eq)]
pub struct UT_EntryKey_t(pub u32);

/// What a stub hands to its handler.
#[derive(Clone, Copy, Debug, PartialEq, Eq)]
pub struct UT_StubContext_t {}

/// What a stub hands to an alternative handler.
#[derive(Clone, Copy, Debug, PartialEq, Eq)]
pub struct UtStubContext {}

/// The arguments of a sequence number search on a channel, and its forced result
/// (positions in the channel's tables).
#[derive(Clone, Copy, Debug, PartialEq, Eq, Default)]
pub struct CfFindTransactionBySequenceNumberContext {
    pub chan: Option<usize>,
    pub transaction_sequence_number: u32,
    pub src_eid: u32,
    pub forced_return: Option<usize>,
}

/// The arguments of a transaction reset.
#[derive(Clone, Copy, Debug, PartialEq, Eq, Default)]
pub struct CfCfdpResetTransactionContext {
    pub txn: Option<usize>,
    pub keep_history: bool,
}

/// The arguments of a history reset.
#[derive(Clone, Copy, Debug, PartialEq, Eq, Default)]
pub struct CfCfdpResetHistoryContext {
    pub chan: Option<usize>,
    pub history: Option<usize>,
}

/// The arguments of a list removal: the list's head and the node.
#[derive(Clone, Copy, Debug, PartialEq, Eq, Default)]
pub struct CfCListRemoveContext {
    pub head: Option<usize>,
    pub node: Option<usize>,
}

/// The arguments of a list pop and its forced result.
#[derive(Clone, Copy, Debug, PartialEq, Eq, Default)]
pub struct CfCListPopContext {
    pub head: Option<usize>,
    pub forced_return: Option<usize>,
}

/// The arguments of an insertion at the back of a list.
#[derive(Clone, Copy, Debug, PartialEq, Eq, Default)]
pub struct CfCListInsertBackContext {
    pub head: Option<usize>,
    pub node: Option<usize>,
}

/// The arguments of an insertion after a node.
#[derive(Clone, Copy, Debug, PartialEq, Eq, Default)]
pub struct CfCListInsertAfterContext {
    pub head: Option<usize>,
    pub start: Option<usize>,
    pub after: Option<usize>,
}

/// The arguments of a backwards traversal and the transaction it found.
#[derive(Clone, Copy, Debug, PartialEq, Eq, Default)]
pub struct CfCListTraverseRContext {
    pub end: Option<usize>,
    pub context_t: Option<usize>,
}

/// Registers the fixtures of a test group; nothing to do here.
pub fn ut_test_setup() {
}

/// Prepares a test; nothing to do here.
pub fn cf_tests_setup() {
}

/// Cleans up after a test; nothing to do here.
pub fn cf_tests_teardown() {
}

/// Seeds the pickers; they are fixed, so there is nothing to seed.
pub fn test_util_initialize_random_seed() {
}

/// A coin flip: 0.
pub fn any_coin_flip() -> (r: u32)
    ensures
        r == 0,
{
    0
}

/// A boolean: `false`.
pub fn any_bool() -> (r: bool)
    ensures
        r == false,
{
    false
}

/// Fills a buffer with arbitrary bytes: the bytes it already holds.
pub fn any_buffer_of_uint8_with_size(buffer: &mut Vec<u8>)
    ensures
        final(buffer)@ == old(buffer)@,
{
}

/// 0 or 1: 0.
pub fn any_0_or_1() -> (r: u8)
    ensures
        r == 0,
{
    0
}

/// A byte: 0.
pub fn any_uint8() -> (r: u8)
    ensures
        r == 0,
{
    0
}

/// A byte from `floor` (included) to `ceiling` (excluded): `floor`.
pub fn any_uint8_between_exclude_max(floor: u8, ceiling: u8) -> (r: u8)
    ensures
        r == floor,
{
    floor
}

/// A byte from `floor` to `ceiling`, both included: `floor`.
pub fn any_uint8_between_inclusive(floor: u8, ceiling: u8) -> (r: u8)
    ensures
        r == floor,
{
    floor
}

/// A byte that does not have every bit of `mask` set: 0. A mask of 0 is excluded, since
/// every byte has all of its (no) bits set.
pub fn any_uint8_except_set_bits(mask: u8) -> (r: u8)
    requires
        mask != 0,
    ensures
        r == 0,
        r & mask != mask,
{
    assert(mask != 0 ==> 0u8 & mask != mask) by (bit_vector);
    0
}

/// A byte with at least one bit set outside `mask`: the complement of `mask`. A mask
/// of 0xFF is excluded, since no byte has a bit outside it.
pub fn any_uint8_except_unset_bits(mask: u8) -> (r: u8)
    requires
        mask != 0xFF,
    ensures
        r == !mask,
        r | mask != mask,
{
    assert(mask != 0xFF ==> (!mask) | mask != mask) by (bit_vector);
    !mask
}

/// One of `values`: the first.
pub fn any_uint8_from_these(values: &[u8]) -> (r: u8)
    requires
        values@.len() > 0,
    ensures
        r == values@[0],
{
    values[0]
}

/// A byte below `ceiling`: 0.
pub fn any_uint8_less_than(ceiling: u8) -> (r: u8)
    ensures
        r == 0,
{
    0
}

/// A byte above `floor`: the next one.
pub fn any_uint8_greater_than(floor: u8) -> (r: u8)
    requires
        floor < u8::MAX,
    ensures
        r == floor + 1,
{
    floor + 1
}

/// A byte not below `floor`: `floor`.
pub fn any_uint8_greater_than_or_equal_to(floor: u8) -> (r: u8)
    ensures
        r == floor,
{
    floor
}

/// A byte other than `exception`: 1 for 0, 0 otherwise.
pub fn any_uint8_except(exception: u8) -> (r: u8)
    ensures
        r == (if exception == 0 { 1u8 } else { 0u8 }),
        r != exception,
{
    if exception == 0 {
        1
    } else {
        0
    }
}

/// A 16-bit value: 0.
pub fn any_uint16() -> (r: u16)
    ensures
        r == 0,
{
    0
}

/// A 16-bit value from `floor` (included) to `ceiling` (excluded): `floor`.
pub fn any_uint16_between_exclude_max(floor: u16, ceiling: u16) -> (r: u16)
    ensures
        r == floor,
{
    floor
}

/// A 16-bit value other than `exception`: 1 for 0, 0 otherwise.
pub fn any_uint16_except(exception: u16) -> (r: u16)
    ensures
        r == (if exception == 0 { 1u16 } else { 0u16 }),
        r != exception,
{
    if exception == 0 {
        1
    } else {
        0
    }
}

/// A 16-bit value above `floor`: the next one.
pub fn any_uint16_greater_than(floor: u16) -> (r: u16)
    requires
        floor < u16::MAX,
    ensures
        r == floor + 1,
{
    floor + 1
}

/// A 16-bit value below `ceiling`: 0.
pub fn any_uint16_less_than(ceiling: u16) -> (r: u16)
    ensures
        r == 0,
{
    0
}

/// A 32-bit value: 0.
pub fn any_uint32() -> (r: u32)
    ensures
        r == 0,
{
    0
}

/// A 32-bit value from `min` to `max`, both included: `min`.
pub fn any_uint32_between_inclusive(min: u32, max: u32) -> (r: u32)
    ensures
        r == min,
{
    min
}

/// A 32-bit value from `min` (included) to `max` (excluded): `min`.
pub fn any_uint32_between_exclude_max(min: u32, max: u32) -> (r: u32)
    ensures
        r == min,
{
    min
}

/// A 32-bit value other than `exception`: 1 for 0, 0 otherwise.
pub fn any_uint32_except(exception: u32) -> (r: u32)
    ensures
        r == (if exception == 0 { 1u32 } else { 0u32 }),
        r != exception,
{
    if exception == 0 {
        1
    } else {
        0
    }
}

/// A 32-bit value above `floor`: the next one.
pub fn any_uint32_greater_than(floor: u32) -> (r: u32)
    requires
        floor < u32::MAX,
    ensures
        r == floor + 1,
{
    floor + 1
}

/// A 32-bit value below `ceiling`: 0.
pub fn any_uint32_less_than(ceiling: u32) -> (r: u32)
    ensures
        r == 0,
{
    0
}

/// A 32-bit value not above `max`: 0.
pub fn any_uint32_less_than_or_equal_to(max: u32) -> (r: u32)
    ensures
        r == 0,
        r <= max,
{
    0
}

/// A signed 32-bit value: 0.
pub fn any_int32() -> (r: i32)
    ensures
        r == 0,
{
    0
}

/// A signed 32-bit value other than `exception`: 1 for 0, 0 otherwise.
pub fn any_int32_except(exception: i32) -> (r: i32)
    ensures
        r == (if exception == 0 { 1i32 } else { 0i32 }),
        r != exception,
{
    if exception == 0 {
        1
    } else {
        0
    }
}

/// A signed 32-bit value below `ceiling`: the one just below.
pub fn any_int32_less_than(ceiling: i32) -> (r: i32)
    requires
        ceiling > i32::MIN,
    ensures
        r == ceiling - 1,
{
    ceiling - 1
}

/// A negative signed 32-bit value: -1.
pub fn any_int32_negative() -> (r: i32)
    ensures
        r == -1,
{
    -1
}

/// A signed 32-bit value that is not negative: 0.
pub fn any_int32_zero_or_positive() -> (r: i32)
    ensures
        r == 0,
{
    0
}

/// A 64-bit value: 0.
pub fn any_uint64() -> (r: u64)
    ensures
        r == 0,
{
    0
}

/// A 64-bit value other than `exception`: 1 for 0, 0 otherwise.
pub fn any_uint64_except(exception: u64) -> (r: u64)
    ensures
        r == (if exception == 0 { 1u64 } else { 0u64 }),
        r != exception,
{
    if exception == 0 {
        1
    } else {
        0
    }
}

/// An unsigned value: 0.
pub fn any_unsigned_int() -> (r: u32)
    ensures
        r == 0,
{
    0
}

/// A signed value: 0.
pub fn any_int() -> (r: i32)
    ensures
        r == 0,
{
    0
}

/// A signed value other than `exception`: 1 for 0, 0 otherwise.
pub fn any_int_except(exception: i32) -> (r: i32)
    ensures
        r == (if exception == 0 { 1i32 } else { 0i32 }),
        r != exception,
{
    if exception == 0 {
        1
    } else {
        0
    }
}

/// A negative signed value: -1.
pub fn any_int_negative() -> (r: i32)
    ensures
        r == -1,
{
    -1
}

/// A positive signed value: 1.
pub fn any_int_positive() -> (r: i32)
    ensures
        r == 1,
{
    1
}

/// A positive signed value other than `exception`: 2 for 1, 1 otherwise.
pub fn any_int_positive_except(exception: i32) -> (r: i32)
    ensures
        r == (if exception == 1 { 2i32 } else { 1i32 }),
        r != exception,
        r > 0,
{
    if exception == 1 {
        2
    } else {
        1
    }
}

/// A value from 0 (included) to `ceiling` (excluded): 0.
pub fn any_int_zero_or_positive_less_than(ceiling: i32) -> (r: i32)
    ensures
        r == 0,
{
    0
}

/// A channel number: 0.
pub fn any_cf_chan_num() -> (r: u8)
    ensures
        r == 0,
{
    0
}

/// Sets a system time: the epoch.
pub fn any_cfe_time_sys_time_set(fake_time: &mut u64)
    ensures
        *final(fake_time) == 0,
{
    *fake_time = 0;
}

/// A negative status: -1.
pub fn any_cfe_status_t_negative() -> (r: i32)
    ensures
        r == -1,
{
    -1
}

/// A status other than `exception`: -1 for 0, 0 otherwise.
pub fn any_cfe_status_t_except(exception: i32) -> (r: i32)
    ensures
        r == (if exception == 0 { -1i32 } else { 0i32 }),
        r != exception,
{
    if exception == 0 {
        -1
    } else {
        0
    }
}

/// A character: NUL.
pub fn any_char() -> (r: i8)
    ensures
        r == 0,
{
    0
}

/// `n` copies of the byte `b`.
fn cf_repeat_byte(b: u8, n: usize) -> (r: Vec<u8>)
    ensures
        r@ == Seq::new(n as nat, |i: int| b),
{
    let mut r: Vec<u8> = Vec::new();
    let mut i: usize = 0;
    while i < n
        invariant
            i <= n,
            r@ == Seq::new(i as nat, |k: int| b),
        decreases n - i,
    {
        r.push(b);
        i = i + 1;
        assert(r@ =~= Seq::new(i as nat, |k: int| b));
    }
    r
}

/// A file name: "test" repeated `length / 4` times.
pub fn any_filename_of_length(length: usize) -> (r: Vec<u8>)
    ensures
        r@.len() == 4 * (length / 4),
        forall|i: int| 0 <= i < r@.len() ==> #[trigger] r@[i] == seq!['t' as u8, 'e' as u8, 's' as u8, 't' as u8][i % 4],
{
    let mut r: Vec<u8> = Vec::new();
    let n = length / 4;
    let mut i: usize = 0;
    while i < n
        invariant
            i <= n,
            n == length / 4,
            r@.len() == 4 * i,
            forall|k: int| 0 <= k < r@.len() ==> #[trigger] r@[k] == seq!['t' as u8, 'e' as u8, 's' as u8, 't' as u8][k % 4],
        decreases n - i,
    {
        let ghost old_r = r@;
        r.push('t' as u8);
        r.push('e' as u8);
        r.push('s' as u8);
        r.push('t' as u8);
        proof {
            assert forall|k: int| 0 <= k < r@.len() implies #[trigger] r@[k] == seq!['t' as u8, 'e' as u8, 's' as u8, 't' as u8][k % 4] by {
                if k < old_r.len() {
                    assert(r@[k] == old_r[k]);
                } else {
                    assert(k - 4 * i < 4);
                    assert(k % 4 == k - 4 * i) by (nonlinear_arith)
                        requires 4 * i <= k < 4 * i + 4;
                }
            }
        }
        i = i + 1;
    }
    r
}

/// A text of `string_length` characters: all 'a'.
pub fn any_random_string_of_text_of_length(string_length: usize) -> (r: Vec<u8>)
    ensures
        r@ == Seq::new(string_length as nat, |i: int| 'a' as u8),
{
    cf_repeat_byte('a' as u8, string_length)
}

/// A string of `length` letters: all 'a'.
pub fn any_random_string_of_letters_of_length(length: usize) -> (r: Vec<u8>)
    ensures
        r@ == Seq::new(length as nat, |i: int| 'a' as u8),
{
    cf_repeat_byte('a' as u8, length)
}

/// Writes 'a' into the first `length` characters of `random_string` (all of them when it
/// is shorter).
pub fn any_random_string_of_letters_of_length_copy(random_string: &mut Vec<i8>, length: usize)
    ensures
        final(random_string)@.len() == old(random_string)@.len(),
        forall|i: int|
            0 <= i < old(random_string)@.len() ==> #[trigger] final(random_string)@[i] == (if i < length {
                97i8
            } else {
                old(random_string)@[i]
            }),
{
    let n = if length < random_string.len() { length } else { random_string.len() };
    let mut i: usize = 0;
    while i < n
        invariant
            i <= n,
            n <= old(random_string)@.len(),
            n == (if length < old(random_string)@.len() { length } else { old(random_string)@.len() as usize }),
            random_string@.len() == old(random_string)@.len(),
            forall|k: int|
                0 <= k < old(random_string)@.len() ==> #[trigger] random_string@[k] == (if k < i {
                    97i8
                } else {
                    old(random_string)@[k]
                }),
        decreases n - i,
    {
        random_string.set(i, 97i8);
        i = i + 1;
    }
}

/// Clears the captured event ids.
pub fn ut_cf_reset_event_capture(captured: &mut Vec<u16>)
    ensures
        final(captured)@.len() == old(captured)@.len(),
        forall|i: int| 0 <= i < final(captured)@.len() ==> #[trigger] final(captured)@[i] == 0,
{
    let mut i: usize = 0;
    while i < captured.len()
        invariant
            i <= captured@.len(),
            captured@.len() == old(captured)@.len(),
            forall|k: int| 0 <= k < i ==> #[trigger] captured@[k] == 0,
        decreases captured@.len() - i,
    {
        captured.set(i, 0);
        i = i + 1;
    }
}

} // verus!
