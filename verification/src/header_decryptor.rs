//! Decryption of the encrypted Native32 header section.
//!
//! The cipher is DES in ECB mode with an unusual bit order: bits are taken
//! least-significant first within each byte, and the substitution-box
//! outputs are expanded least-significant first. Which of a few fixed keys a
//! file uses is found by trying each until the decrypted block carries the
//! `8202` magic.

use vstd::prelude::*;
use crate::des_constants::{
    DES_SBOXES, FINAL_MESSAGE_PERMUTATION, INITIAL_KEY_PERMUTATION, INITIAL_MESSAGE_PERMUTATION,
    KEY_SHIFT_SIZES, MESSAGE_SHUFFLE, RIGHT_SUB_MESSAGE_PERMUTATION, SUB_KEY_PERMUTATION,
};
use vstd::arithmetic::div_mod::lemma_fundamental_div_mod_converse;

verus! {

// ---------------------------------------------------------------------------
// Bit vectors as sequences of 0/1 bytes
// ---------------------------------------------------------------------------

/// Every element is 0 or 1.
pub open spec fn is_bits(s: Seq<u8>) -> bool {
    forall|i: int| 0 <= i < s.len() ==> #[trigger] s[i] <= 1
}

/// Bit `i` of the byte string `data`, least-significant bit first in each byte.
pub open spec fn bit_at(data: Seq<u8>, i: int) -> u8 {
    (data[i / 8] >> ((i % 8) as u8)) & 1u8
}

/// The first `count` bits of `data`.
pub open spec fn bits_of(data: Seq<u8>, count: int) -> Seq<u8> {
    Seq::new(count as nat, |i: int| bit_at(data, i))
}

/// The byte made of bits `8 * k .. 8 * k + j` of `bits` (least significant first).
pub open spec fn pack_bits(bits: Seq<u8>, k: int, j: int) -> u8
    decreases j,
{
    if j <= 0 {
        0
    } else {
        pack_bits(bits, k, j - 1) | (bits[8 * k + j - 1] << ((j - 1) as u8))
    }
}

/// The bytes packed from the first `count` bits.
pub open spec fn bytes_of(bits: Seq<u8>, count: int) -> Seq<u8> {
    Seq::new((count / 8) as nat, |k: int| pack_bits(bits, k, 8))
}

/// Select `count` bits of `src` by the 1-based positions in `table`.
pub open spec fn permute(src: Seq<u8>, table: Seq<u8>, count: int) -> Seq<u8> {
    Seq::new(count as nat, |i: int| src[table[i] - 1])
}

/// Every one of the first `count` entries of `table` is a position in `src`.
pub open spec fn table_fits(table: Seq<u8>, count: int, len: int) -> bool {
    count <= table.len() && forall|i: int| 0 <= i < count ==> 1 <= #[trigger] table[i] <= len
}

/// `src` with the `count` entries from `offset` rotated left by `split`.
pub open spec fn rotate_left(src: Seq<u8>, count: int, split: int, offset: int) -> Seq<u8> {
    Seq::new(
        src.len(),
        |j: int|
            if offset <= j < offset + count {
                src[offset + (j - offset + split) % count]
            } else {
                src[j]
            },
    )
}

/// `dst` with `src` written from `offset` on.
pub open spec fn splice(dst: Seq<u8>, offset: int, src: Seq<u8>) -> Seq<u8> {
    Seq::new(
        dst.len(),
        |j: int|
            if offset <= j < offset + src.len() {
                src[j - offset]
            } else {
                dst[j]
            },
    )
}

/// The permutation and rotation tables hold positions in range.
pub proof fn lemma_tables_fit()
    ensures
        table_fits(INITIAL_KEY_PERMUTATION@, 56, 64),
        table_fits(SUB_KEY_PERMUTATION@, 48, 56),
        table_fits(MESSAGE_SHUFFLE@, 48, 64),
        table_fits(RIGHT_SUB_MESSAGE_PERMUTATION@, 32, 64),
        table_fits(INITIAL_MESSAGE_PERMUTATION@, 64, 64),
        table_fits(FINAL_MESSAGE_PERMUTATION@, 64, 64),
        forall|i: int| 0 <= i < 16 ==> 1 <= #[trigger] KEY_SHIFT_SIZES@[i] <= 2,
        forall|i: int| 0 <= i < 512 ==> #[trigger] DES_SBOXES@[i] < 16,
{
    reveal(INITIAL_KEY_PERMUTATION);
    reveal(SUB_KEY_PERMUTATION);
    reveal(MESSAGE_SHUFFLE);
    reveal(RIGHT_SUB_MESSAGE_PERMUTATION);
    reveal(INITIAL_MESSAGE_PERMUTATION);
    reveal(FINAL_MESSAGE_PERMUTATION);
    reveal(KEY_SHIFT_SIZES);
    reveal(DES_SBOXES);
}

proof fn lemma_bit_le_one(b: u8, s: u8)
    requires
        s < 8,
    ensures
        (b >> s) & 1u8 <= 1,
{
    assert((b >> s) & 1u8 <= 1) by (bit_vector);
}

proof fn lemma_xor_bits(a: u8, b: u8)
    requires
        a <= 1,
        b <= 1,
    ensures
        a ^ b <= 1,
{
    assert(a <= 1 && b <= 1 ==> a ^ b <= 1) by (bit_vector);
}

fn expand_bits(data: &[u8], count: usize) -> (r: Vec<u8>)
    requires
        count <= 8 * data@.len(),
    ensures
        r@ == bits_of(data@, count as int),
        is_bits(r@),
{
    let mut result: Vec<u8> = Vec::new();
    let mut i: usize = 0;
    while i < count
        invariant
            i <= count,
            count <= 8 * data@.len(),
            result@ == bits_of(data@, i as int),
            is_bits(result@),
        decreases count - i,
    {
        let b = (data[i / 8] >> (i % 8)) & 1;
        proof {
            lemma_bit_le_one(data@[(i / 8) as int], (i % 8) as u8);
        }
        result.push(b);
        i = i + 1;
        assert(result@ =~= bits_of(data@, i as int));
    }
    result
}

fn compress_bits(data: &[u8], count: usize) -> (r: Vec<u8>)
    requires
        count % 8 == 0,
        count <= data@.len(),
    ensures
        r@ == bytes_of(data@, count as int),
{
    let mut result: Vec<u8> = Vec::new();
    let mut k: usize = 0;
    while k < count / 8
        invariant
            k <= count / 8,
            result@ == Seq::new(k as nat, |j: int| 0u8),
        decreases count / 8 - k,
    {
        result.push(0);
        k = k + 1;
        assert(result@ =~= Seq::new(k as nat, |j: int| 0u8));
    }
    let mut i: usize = 0;
    while i < count
        invariant
            count % 8 == 0,
            count <= data@.len(),
            i <= count,
            result@.len() == count / 8,
            forall|k: int|
                0 <= k < count / 8 ==> #[trigger] result@[k] == pack_bits(
                    data@,
                    k,
                    if i - 8 * k <= 0 {
                        0
                    } else if i - 8 * k >= 8 {
                        8
                    } else {
                        i - 8 * k
                    },
                ),
        decreases count - i,
    {
        let k0 = i / 8;
        result.set(k0, result[k0] | (data[i] << (i % 8)));
        i = i + 1;
    }
    assert(result@ =~= bytes_of(data@, count as int));
    result
}

fn do_shuffle(dst: &mut Vec<u8>, src: &[u8], table: &[u8], count: usize, offset: usize)
    requires
        table_fits(table@, count as int, src@.len() as int),
        offset + count <= old(dst)@.len(),
    ensures
        final(dst)@ == splice(old(dst)@, offset as int, permute(src@, table@, count as int)),
{
    let mut temp: Vec<u8> = Vec::new();
    let mut i: usize = 0;
    while i < count
        invariant
            i <= count,
            table_fits(table@, count as int, src@.len() as int),
            temp@ == permute(src@, table@, i as int),
        decreases count - i,
    {
        temp.push(src[(table[i] - 1) as usize]);
        i = i + 1;
        assert(temp@ =~= permute(src@, table@, i as int));
    }
    let ghost d0 = dst@;
    let _dst_len = dst.len();
    let mut i: usize = 0;
    while i < count
        invariant
            i <= count,
            offset + count <= d0.len(),
            d0.len() <= usize::MAX,
            temp@.len() == count,
            dst@.len() == d0.len(),
            forall|j: int|
                0 <= j < d0.len() ==> #[trigger] dst@[j] == if offset <= j < offset + i {
                    temp@[j - offset]
                } else {
                    d0[j]
                },
        decreases count - i,
    {
        dst.set(i + offset, temp[i]);
        i = i + 1;
    }
    assert(dst@ =~= splice(d0, offset as int, permute(src@, table@, count as int)));
}

fn slice_and_dice(src: &mut Vec<u8>, count: usize, splitpoint: usize, offset: usize)
    requires
        0 < splitpoint <= count,
        offset + count <= old(src)@.len(),
    ensures
        final(src)@ == rotate_left(old(src)@, count as int, splitpoint as int, offset as int),
{
    let ghost s0 = src@;
    let _src_len = src.len();
    let mut shuffle_temp: Vec<u8> = Vec::new();
    let mut i: usize = 0;
    while i < splitpoint
        invariant
            i <= splitpoint <= count,
            offset + count <= s0.len(),
            s0.len() <= usize::MAX,
            src@ == s0,
            shuffle_temp@ == s0.subrange(offset as int, offset + i),
        decreases splitpoint - i,
    {
        shuffle_temp.push(src[offset + i]);
        i = i + 1;
        assert(shuffle_temp@ =~= s0.subrange(offset as int, offset + i));
    }
    let mut i: usize = 0;
    while i < count - splitpoint
        invariant
            0 < splitpoint <= count,
            i <= count - splitpoint,
            offset + count <= s0.len(),
            s0.len() <= usize::MAX,
            src@.len() == s0.len(),
            shuffle_temp@ == s0.subrange(offset as int, offset + splitpoint),
            forall|j: int|
                0 <= j < s0.len() ==> #[trigger] src@[j] == if offset <= j < offset + i {
                    s0[j + splitpoint]
                } else {
                    s0[j]
                },
        decreases count - splitpoint - i,
    {
        let v = src[offset + i + splitpoint];
        src.set(offset + i, v);
        i = i + 1;
    }
    let mut i: usize = 0;
    while i < splitpoint
        invariant
            0 < splitpoint <= count,
            i <= splitpoint,
            offset + count <= s0.len(),
            s0.len() <= usize::MAX,
            src@.len() == s0.len(),
            shuffle_temp@ == s0.subrange(offset as int, offset + splitpoint),
            forall|j: int|
                0 <= j < s0.len() ==> #[trigger] src@[j] == if offset <= j < offset + count
                    - splitpoint {
                    s0[j + splitpoint]
                } else if offset + count - splitpoint <= j < offset + count - splitpoint + i {
                    s0[j - (count - splitpoint)]
                } else {
                    s0[j]
                },
        decreases splitpoint - i,
    {
        src.set(offset + i + (count - splitpoint), shuffle_temp[i]);
        i = i + 1;
    }
    assert forall|j: int| 0 <= j < s0.len() implies #[trigger] src@[j] == rotate_left(
        s0,
        count as int,
        splitpoint as int,
        offset as int,
    )[j] by {
        if offset <= j < offset + count {
            let k = j - offset;
            if k < count - splitpoint {
                lemma_fundamental_div_mod_converse(k + splitpoint, count as int, 0, k + splitpoint);
            } else {
                lemma_fundamental_div_mod_converse(k + splitpoint, count as int, 1, k + splitpoint - count);
            }
        }
    }
    assert(src@ =~= rotate_left(s0, count as int, splitpoint as int, offset as int));
}

// ---------------------------------------------------------------------------
// Key schedule
// ---------------------------------------------------------------------------

/// The 56 key bits selected from a 64-bit key.
pub open spec fn selected_key_bits(key: Seq<u8>) -> Seq<u8> {
    permute(bits_of(key, 64), INITIAL_KEY_PERMUTATION@, 56)
}

/// The 56 key bits after the rotations of the first `r` rounds (each
/// 28-bit half rotated left by the round's shift).
pub open spec fn key_state(kb0: Seq<u8>, r: int) -> Seq<u8>
    decreases r,
{
    if r <= 0 {
        kb0
    } else {
        let prev = key_state(kb0, r - 1);
        let sh = KEY_SHIFT_SIZES@[r - 1] as int;
        rotate_left(rotate_left(prev, 28, sh, 0), 28, sh, 28)
    }
}

/// The 48-bit key of round `r` (0-based).
pub open spec fn round_key(kb0: Seq<u8>, r: int) -> Seq<u8> {
    permute(key_state(kb0, r + 1), SUB_KEY_PERMUTATION@, 48)
}

/// The 16 round keys of `key`, concatenated.
pub open spec fn expanded_key(key: Seq<u8>) -> Seq<u8> {
    Seq::new(768, |i: int| round_key(selected_key_bits(key), i / 48)[i % 48])
}

proof fn lemma_permute_bits(src: Seq<u8>, table: Seq<u8>, count: int)
    requires
        is_bits(src),
        0 <= count,
        table_fits(table, count, src.len() as int),
    ensures
        is_bits(permute(src, table, count)),
{
    assert forall|i: int| 0 <= i < permute(src, table, count).len() implies #[trigger] permute(src, table, count)[i] <= 1 by {
        assert(1 <= table[i] <= src.len());
        assert(src[table[i] - 1] <= 1);
    }
}

proof fn lemma_rotate_bits(src: Seq<u8>, count: int, split: int, offset: int)
    requires
        is_bits(src),
        0 < count,
        0 <= offset,
        offset + count <= src.len(),
    ensures
        is_bits(rotate_left(src, count, split, offset)),
        rotate_left(src, count, split, offset).len() == src.len(),
{
    assert forall|j: int| 0 <= j < src.len() implies #[trigger] rotate_left(src, count, split, offset)[j] <= 1 by {
        if offset <= j < offset + count {
            let m = (j - offset + split) % count;
            assert(0 <= m < count);
        }
    }
}

proof fn lemma_key_state(kb0: Seq<u8>, r: int)
    requires
        kb0.len() == 56,
        is_bits(kb0),
        0 <= r <= 16,
    ensures
        key_state(kb0, r).len() == 56,
        is_bits(key_state(kb0, r)),
    decreases r,
{
    if r > 0 {
        lemma_key_state(kb0, r - 1);
        let prev = key_state(kb0, r - 1);
        let sh = KEY_SHIFT_SIZES@[r - 1] as int;
        lemma_rotate_bits(prev, 28, sh, 0);
        lemma_rotate_bits(rotate_left(prev, 28, sh, 0), 28, sh, 28);
    }
}

/// The total left rotation of each key half after the first `r` rounds.
pub open spec fn shift_total(r: int) -> int
    decreases r,
{
    if r <= 0 {
        0
    } else {
        shift_total(r - 1) + KEY_SHIFT_SIZES@[r - 1] as int
    }
}

/// After `r` rounds each 28-bit key half is the starting half rotated left
/// by the rounds' total shift.
proof fn lemma_key_state_rotation(kb0: Seq<u8>, r: int)
    requires
        kb0.len() == 56,
        0 <= r <= 16,
    ensures
        key_state(kb0, r).len() == 56,
        forall|j: int|
            0 <= j < 56 ==> #[trigger] key_state(kb0, r)[j] == kb0[(if j < 28 { 0int } else { 28 }) + (j - (
            if j < 28 { 0int } else { 28 }) + shift_total(r)) % 28],
    decreases r,
{
    lemma_tables_fit();
    if r == 0 {
        assert forall|j: int| 0 <= j < 56 implies #[trigger] key_state(kb0, r)[j] == kb0[(if j < 28 {
            0int
        } else {
            28
        }) + (j - (if j < 28 { 0int } else { 28 }) + shift_total(r)) % 28] by {
            let base: int = if j < 28 { 0 } else { 28 };
            vstd::arithmetic::div_mod::lemma_small_mod((j - base) as nat, 28);
        }
    } else {
        lemma_key_state_rotation(kb0, r - 1);
        let prev = key_state(kb0, r - 1);
        let sh = KEY_SHIFT_SIZES@[r - 1] as int;
        let inner = rotate_left(prev, 28, sh, 0);
        assert forall|j: int| 0 <= j < 56 implies #[trigger] key_state(kb0, r)[j] == kb0[(if j < 28 {
            0int
        } else {
            28
        }) + (j - (if j < 28 { 0int } else { 28 }) + shift_total(r)) % 28] by {
            let base: int = if j < 28 { 0 } else { 28 };
            let x = base + (j - base + sh) % 28;
            assert(key_state(kb0, r)[j] == prev[x]);
            assert(0 <= x - base < 28);
            assert(prev[x] == kb0[base + (x - base + shift_total(r - 1)) % 28]);
            vstd::arithmetic::div_mod::lemma_add_mod_noop_right(shift_total(r - 1), j - base + sh, 28);
            assert(x - base + shift_total(r - 1) == shift_total(r - 1) + (j - base + sh) % 28);
            assert(j - base + shift_total(r) == shift_total(r - 1) + (j - base + sh));
        }
    }
}

/// The sixteen rotations of each key half add up to one whole turn: the
/// key schedule ends where it began, so the round keys of decryption are
/// those of encryption taken from the last one down.
pub proof fn lemma_key_schedule_full_turn(kb0: Seq<u8>)
    requires
        kb0.len() == 56,
    ensures
        key_state(kb0, 16) == kb0,
{
    reveal(KEY_SHIFT_SIZES);
    reveal_with_fuel(shift_total, 17);
    assert(shift_total(16) == 28);
    lemma_key_state_rotation(kb0, 16);
    assert forall|j: int| 0 <= j < 56 implies #[trigger] key_state(kb0, 16)[j] == kb0[j] by {
        let base: int = if j < 28 { 0 } else { 28 };
        vstd::arithmetic::div_mod::lemma_mod_add_multiples_vanish(j - base, 28);
        vstd::arithmetic::div_mod::lemma_small_mod((j - base) as nat, 28);
    }
    assert(key_state(kb0, 16) =~= kb0);
}

fn expand_key(src: &[u8]) -> (r: Vec<u8>)
    requires
        src@.len() == 8,
    ensures
        r@ == expanded_key(src@),
        is_bits(r@),
{
    proof {
        lemma_tables_fit();
    }
    let key_bits_raw = expand_bits(src, 0x40);
    let mut key_bits: Vec<u8> = Vec::new();
    let mut i: usize = 0;
    while i < 0x38
        invariant
            i <= 0x38,
            key_bits_raw@ == bits_of(src@, 64),
            table_fits(INITIAL_KEY_PERMUTATION@, 56, 64),
            key_bits@ == permute(key_bits_raw@, INITIAL_KEY_PERMUTATION@, i as int),
        decreases 0x38 - i,
    {
        key_bits.push(key_bits_raw[(INITIAL_KEY_PERMUTATION[i] - 1) as usize]);
        i = i + 1;
        assert(key_bits@ =~= permute(key_bits_raw@, INITIAL_KEY_PERMUTATION@, i as int));
    }
    let ghost kb0 = key_bits@;
    proof {
        lemma_permute_bits(key_bits_raw@, INITIAL_KEY_PERMUTATION@, 56);
        assert(kb0 == selected_key_bits(src@));
    }
    let mut result: Vec<u8> = Vec::new();
    let mut k: usize = 0;
    while k < 0x300
        invariant
            k <= 0x300,
            result@ == Seq::new(k as nat, |j: int| 0u8),
        decreases 0x300 - k,
    {
        result.push(0);
        k = k + 1;
        assert(result@ =~= Seq::new(k as nat, |j: int| 0u8));
    }
    let mut i: usize = 0;
    while i < 0x10
        invariant
            i <= 0x10,
            kb0 == selected_key_bits(src@),
            kb0.len() == 56,
            is_bits(kb0),
            key_bits@ == key_state(kb0, i as int),
            table_fits(SUB_KEY_PERMUTATION@, 48, 56),
            forall|j: int| 0 <= j < 16 ==> 1 <= #[trigger] KEY_SHIFT_SIZES@[j] <= 2,
            result@.len() == 0x300,
            forall|j: int|
                0 <= j < 0x300 ==> #[trigger] result@[j] == if j < 48 * i {
                    round_key(kb0, j / 48)[j % 48]
                } else {
                    0u8
                },
        decreases 0x10 - i,
    {
        proof {
            lemma_key_state(kb0, i as int);
        }
        let splitpoint = KEY_SHIFT_SIZES[i] as usize;
        slice_and_dice(&mut key_bits, 0x1c, splitpoint, 0);
        slice_and_dice(&mut key_bits, 0x1c, splitpoint, 0x1c);
        assert(key_bits@ == key_state(kb0, i + 1));
        proof {
            lemma_key_state(kb0, i + 1);
        }
        let ghost before = result@;
        do_shuffle(&mut result, &key_bits, &SUB_KEY_PERMUTATION, 0x30, i * 0x30);
        assert forall|j: int| 0 <= j < 0x300 implies #[trigger] result@[j] == if j < 48 * (i + 1) {
            round_key(kb0, j / 48)[j % 48]
        } else {
            0u8
        } by {
            if 48 * i <= j < 48 * (i + 1) {
                lemma_fundamental_div_mod_converse(j, 48, i as int, j - 48 * i);
            } else {
                assert(result@[j] == before[j]);
            }
        }
        i = i + 1;
    }
    assert(result@ =~= expanded_key(src@));
    proof {
        assert forall|j: int| 0 <= j < 0x300 implies #[trigger] result@[j] <= 1 by {
            let r = j / 48;
            assert(0 <= r < 16);
            lemma_key_state(kb0, r + 1);
            lemma_permute_bits(key_state(kb0, r + 1), SUB_KEY_PERMUTATION@, 48);
            assert(round_key(kb0, r)[j % 48] <= 1);
        }
    }
    result
}

// ---------------------------------------------------------------------------
// Rounds
// ---------------------------------------------------------------------------

/// Index into the substitution boxes for box `i`, from the six mixed bits
/// `6 * i .. 6 * i + 6` of `key` (row from bits 0 and 5, column from bits 1..5).
pub open spec fn sbox_index(key: Seq<u8>, i: int) -> int {
    (i * 4 + key[6 * i + 5] + key[6 * i] * 2) * 16 + (key[6 * i + 4] + key[6 * i + 1] * 8 + key[6 * i
        + 2] * 4 + key[6 * i + 3] * 2)
}

/// `data` with its first 32 bits replaced by the eight 4-bit substitution
/// outputs, least-significant bit first.
pub open spec fn sbox_out(data: Seq<u8>, key: Seq<u8>) -> Seq<u8> {
    Seq::new(
        data.len(),
        |m: int|
            if m < 32 {
                (DES_SBOXES@[sbox_index(key, m / 4)] >> ((m % 4) as u8)) & 1u8
            } else {
                data[m]
            },
    )
}

/// The 48 expanded message bits mixed with the round key.
pub open spec fn mixed(data: Seq<u8>, key: Seq<u8>) -> Seq<u8> {
    Seq::new(48, |i: int| permute(data, MESSAGE_SHUFFLE@, 48)[i] ^ key[i])
}

/// One application of the round function: substitution of the mixed bits,
/// then the permutation of the 32 substituted bits.
pub open spec fn iteration(data: Seq<u8>, key: Seq<u8>) -> Seq<u8> {
    let sb = sbox_out(data, mixed(data, key));
    splice(sb, 0, permute(sb, RIGHT_SUB_MESSAGE_PERMUTATION@, 32))
}

/// One Feistel round on the 64 message bits.
pub open spec fn feistel_round(ed: Seq<u8>, key: Seq<u8>) -> Seq<u8> {
    let p = iteration(ed, key);
    Seq::new(64, |m: int| if m < 32 { p[m] ^ p[m + 32] } else { ed[m - 32] })
}

/// The message bits after `n` rounds, the round keys taken from the last one down.
pub open spec fn rounds(ed: Seq<u8>, ek: Seq<u8>, n: int) -> Seq<u8>
    decreases n,
{
    if n <= 0 {
        ed
    } else {
        feistel_round(rounds(ed, ek, n - 1), ek.subrange(48 * (16 - n), 48 * (16 - n) + 48))
    }
}

/// The 8 plaintext bytes of one 8-byte ciphertext block under the expanded key.
pub open spec fn decrypt_block(src: Seq<u8>, ek: Seq<u8>) -> Seq<u8> {
    let ed = permute(bits_of(src, 64), INITIAL_MESSAGE_PERMUTATION@, 64);
    bytes_of(permute(rounds(ed, ek, 16), FINAL_MESSAGE_PERMUTATION@, 64), 64)
}

proof fn lemma_sbox_index_bound(key: Seq<u8>, i: int)
    requires
        is_bits(key),
        key.len() >= 48,
        0 <= i < 8,
    ensures
        0 <= sbox_index(key, i) < 512,
{
    assert(key[6 * i] <= 1 && key[6 * i + 1] <= 1 && key[6 * i + 2] <= 1 && key[6 * i + 3] <= 1
        && key[6 * i + 4] <= 1 && key[6 * i + 5] <= 1);
}

fn do_sbox(data: &mut Vec<u8>, key: &[u8])
    requires
        old(data)@.len() == 64,
        key@.len() == 48,
        is_bits(key@),
    ensures
        final(data)@ == sbox_out(old(data)@, key@),
        is_bits(final(data)@.subrange(0, 32)),
{
    let ghost d0 = data@;
    proof {
        lemma_tables_fit();
    }
    let mut i: usize = 0;
    while i < 8
        invariant
            i <= 8,
            key@.len() == 48,
            is_bits(key@),
            forall|j: int| 0 <= j < 512 ==> #[trigger] DES_SBOXES@[j] < 16,
            data@.len() == 64,
            d0.len() == 64,
            forall|m: int|
                0 <= m < 64 ==> #[trigger] data@[m] == if m < 4 * i {
                    sbox_out(d0, key@)[m]
                } else {
                    d0[m]
                },
            forall|m: int| 0 <= m < 4 * i ==> #[trigger] data@[m] <= 1,
        decreases 8 - i,
    {
        proof {
            lemma_sbox_index_bound(key@, i as int);
        }
        let idx = (i * 4 + key[i * 6 + 5] as usize + key[i * 6] as usize * 2) * 0x10 + (key[i * 6
            + 4] as usize + key[i * 6 + 1] as usize * 8 + key[i * 6 + 2] as usize * 4 + key[i * 6
            + 3] as usize * 2);
        let bits = expand_bits(&[DES_SBOXES[idx]], 4);
        let mut j: usize = 0;
        while j < 4
            invariant
                i < 8,
                j <= 4,
                idx == sbox_index(key@, i as int),
                d0.len() == 64,
                bits@ == bits_of(seq![DES_SBOXES@[idx as int]], 4),
                is_bits(bits@),
                data@.len() == 64,
                forall|m: int|
                    0 <= m < 64 ==> #[trigger] data@[m] == if m < 4 * i + j {
                        sbox_out(d0, key@)[m]
                    } else {
                        d0[m]
                    },
                forall|m: int| 0 <= m < 4 * i + j ==> #[trigger] data@[m] <= 1,
            decreases 4 - j,
        {
            data.set(i * 4 + j, bits[j]);
            proof {
                let m = 4 * i + j;
                assert(m / 4 == i && m % 4 == j);
                assert(bits@[j as int] <= 1);
                assert((j as int) / 8 == 0 && (j as int) % 8 == j);
                assert(bits@[j as int] == (DES_SBOXES@[idx as int] >> (j as u8)) & 1u8);
                assert(sbox_out(d0, key@)[m] == (DES_SBOXES@[idx as int] >> (j as u8)) & 1u8);
            }
            j = j + 1;
        }
        i = i + 1;
    }
    assert(data@ =~= sbox_out(d0, key@));
}

fn process_iteration(data: &mut Vec<u8>, key: &[u8], koff: usize)
    requires
        old(data)@.len() == 64,
        is_bits(old(data)@),
        koff + 48 <= key@.len(),
        is_bits(key@),
    ensures
        final(data)@ == iteration(old(data)@, key@.subrange(koff as int, koff + 48)),
        is_bits(final(data)@),
{
    proof {
        lemma_tables_fit();
    }
    let ghost d0 = data@;
    let ghost k = key@.subrange(koff as int, koff + 48);
    let mut iter_temp: Vec<u8> = Vec::new();
    let mut z: usize = 0;
    while z < 0x30
        invariant
            z <= 0x30,
            iter_temp@ == Seq::new(z as nat, |j: int| 0u8),
        decreases 0x30 - z,
    {
        iter_temp.push(0);
        z = z + 1;
        assert(iter_temp@ =~= Seq::new(z as nat, |j: int| 0u8));
    }
    do_shuffle(&mut iter_temp, data, &MESSAGE_SHUFFLE, 0x30, 0);
    let ghost shuffled = iter_temp@;
    let klen = key.len();
    proof {
        lemma_permute_bits(d0, MESSAGE_SHUFFLE@, 48);
        assert(shuffled =~= permute(d0, MESSAGE_SHUFFLE@, 48));
    }
    let mut i: usize = 0;
    while i < 0x30
        invariant
            i <= 0x30,
            koff + 48 <= key@.len(),
            key@.len() == klen,
            is_bits(key@),
            is_bits(shuffled),
            shuffled.len() == 48,
            k == key@.subrange(koff as int, koff + 48),
            iter_temp@.len() == 48,
            forall|j: int|
                0 <= j < 48 ==> #[trigger] iter_temp@[j] == if j < i {
                    shuffled[j] ^ k[j]
                } else {
                    shuffled[j]
                },
            forall|j: int| 0 <= j < i ==> #[trigger] iter_temp@[j] <= 1,
        decreases 0x30 - i,
    {
        let v = iter_temp[i] ^ key[koff + i];
        proof {
            lemma_xor_bits(shuffled[i as int], key@[koff + i]);
        }
        iter_temp.set(i, v);
        i = i + 1;
    }
    assert(iter_temp@ =~= mixed(d0, k));
    do_sbox(data, &iter_temp);
    let ghost sb = data@;
    let mut data_copy: Vec<u8> = Vec::new();
    let mut c: usize = 0;
    while c < data.len()
        invariant
            c <= data@.len(),
            data@ == sb,
            data_copy@ == sb.subrange(0, c as int),
        decreases data@.len() - c,
    {
        data_copy.push(data[c]);
        c = c + 1;
        assert(data_copy@ =~= sb.subrange(0, c as int));
    }
    assert(data_copy@ =~= sb);
    do_shuffle(data, &data_copy, &RIGHT_SUB_MESSAGE_PERMUTATION, 0x20, 0);
    proof {
        assert forall|m: int| 0 <= m < 64 implies #[trigger] sb[m] <= 1 by {
            if m < 32 {
                assert(sb.subrange(0, 32)[m] <= 1);
            } else {
                assert(d0[m] <= 1);
            }
        }
        lemma_permute_bits(sb, RIGHT_SUB_MESSAGE_PERMUTATION@, 32);
        assert forall|m: int| 0 <= m < 64 implies #[trigger] data@[m] <= 1 by {
            if m < 32 {
                assert(permute(sb, RIGHT_SUB_MESSAGE_PERMUTATION@, 32)[m] <= 1);
            }
        }
    }
}

fn zeros(n: usize) -> (r: Vec<u8>)
    ensures
        r@ == Seq::new(n as nat, |j: int| 0u8),
{
    let mut v: Vec<u8> = Vec::new();
    let mut k: usize = 0;
    while k < n
        invariant
            k <= n,
            v@ == Seq::new(k as nat, |j: int| 0u8),
        decreases n - k,
    {
        v.push(0);
        k = k + 1;
        assert(v@ =~= Seq::new(k as nat, |j: int| 0u8));
    }
    v
}

fn decrypt_chunk(src: &[u8], expanded_key: &[u8]) -> (r: Vec<u8>)
    requires
        src@.len() == 8,
        expanded_key@.len() == 768,
        is_bits(expanded_key@),
    ensures
        r@ == decrypt_block(src@, expanded_key@),
{
    proof {
        lemma_tables_fit();
    }
    let expanded_data_raw = expand_bits(src, 0x40);
    let mut expanded_data = zeros(0x40);
    do_shuffle(&mut expanded_data, &expanded_data_raw, &INITIAL_MESSAGE_PERMUTATION, 0x40, 0);
    let ghost ek = expanded_key@;
    let ghost ed0 = permute(bits_of(src@, 64), INITIAL_MESSAGE_PERMUTATION@, 64);
    proof {
        lemma_permute_bits(expanded_data_raw@, INITIAL_MESSAGE_PERMUTATION@, 64);
        assert(expanded_data@ =~= ed0);
    }
    let mut n: usize = 0;
    while n < 16
        invariant
            n <= 16,
            ek == expanded_key@,
            ek.len() == 768,
            is_bits(ek),
            expanded_data@ == rounds(ed0, ek, n as int),
            expanded_data@.len() == 64,
            is_bits(expanded_data@),
        decreases 16 - n,
    {
        let idx = 0x2d0 - n * 0x30;
        let ghost before = expanded_data@;
        let mut temp_data: Vec<u8> = Vec::new();
        let mut j: usize = 0;
        while j < 0x20
            invariant
                j <= 0x20,
                expanded_data@ == before,
                before.len() == 64,
                temp_data@ == before.subrange(0, j as int),
            decreases 0x20 - j,
        {
            temp_data.push(expanded_data[j]);
            j = j + 1;
            assert(temp_data@ =~= before.subrange(0, j as int));
        }
        process_iteration(&mut expanded_data, expanded_key, idx);
        let ghost p = expanded_data@;
        let mut j: usize = 0;
        while j < 0x20
            invariant
                j <= 0x20,
                p.len() == 64,
                is_bits(p),
                expanded_data@.len() == 64,
                forall|m: int|
                    0 <= m < 64 ==> #[trigger] expanded_data@[m] == if m < j {
                        p[m] ^ p[m + 32]
                    } else {
                        p[m]
                    },
                forall|m: int| 0 <= m < 64 ==> #[trigger] expanded_data@[m] <= 1,
            decreases 0x20 - j,
        {
            let v = expanded_data[j] ^ expanded_data[0x20 + j];
            proof {
                lemma_xor_bits(p[j as int], p[j + 32]);
            }
            expanded_data.set(j, v);
            j = j + 1;
        }
        let mut j: usize = 0;
        while j < 0x20
            invariant
                j <= 0x20,
                p.len() == 64,
                before.len() == 64,
                is_bits(before),
                temp_data@ == before.subrange(0, 32),
                expanded_data@.len() == 64,
                forall|m: int|
                    0 <= m < 64 ==> #[trigger] expanded_data@[m] == if m < 32 {
                        p[m] ^ p[m + 32]
                    } else if m < 32 + j {
                        before[m - 32]
                    } else {
                        p[m]
                    },
                forall|m: int| 0 <= m < 64 ==> #[trigger] expanded_data@[m] <= 1,
            decreases 0x20 - j,
        {
            expanded_data.set(0x20 + j, temp_data[j]);
            j = j + 1;
        }
        proof {
            assert(idx == 48 * (16 - (n + 1)));
            assert(expanded_data@ =~= feistel_round(before, ek.subrange(idx as int, idx + 48)));
        }
        n = n + 1;
    }
    let mut final_data = zeros(0x40);
    do_shuffle(&mut final_data, &expanded_data, &FINAL_MESSAGE_PERMUTATION, 0x40, 0);
    assert(final_data@ =~= permute(rounds(ed0, ek, 16), FINAL_MESSAGE_PERMUTATION@, 64));
    compress_bits(&final_data, 0x40)
}

/// The plaintext of the first `n` 8-byte blocks of `data`, concatenated.
pub open spec fn decrypt_blocks(data: Seq<u8>, ek: Seq<u8>, n: int) -> Seq<u8>
    decreases n,
{
    if n <= 0 {
        Seq::empty()
    } else {
        decrypt_blocks(data, ek, n - 1) + decrypt_block(data.subrange(8 * (n - 1), 8 * n), ek)
    }
}

/// DES-ECB decryption of the whole 8-byte blocks of `data` under `key`.
pub open spec fn des_decrypt(data: Seq<u8>, key: Seq<u8>) -> Seq<u8> {
    decrypt_blocks(data, expanded_key(key), (data.len() / 8) as int)
}

fn do_decrypt(data: &[u8], key: &[u8]) -> (r: Vec<u8>)
    requires
        key@.len() == 8,
    ensures
        r@ == des_decrypt(data@, key@),
{
    let ek = expand_key(key);
    let mut result: Vec<u8> = Vec::new();
    let mut i: usize = 0;
    let dlen = data.len();
    let nblocks = dlen / 8;
    while i < nblocks
        invariant
            i <= nblocks,
            dlen == data@.len(),
            nblocks == data@.len() / 8,
            ek@ == expanded_key(key@),
            ek@.len() == 768,
            is_bits(ek@),
            result@ == decrypt_blocks(data@, ek@, i as int),
        decreases nblocks - i,
    {
        let mut chunk: Vec<u8> = Vec::new();
        let mut j: usize = 0;
        while j < 8
            invariant
                j <= 8,
                i < nblocks,
                nblocks == data@.len() / 8,
                dlen == data@.len(),
                8 * i + 8 <= dlen,
                chunk@ == data@.subrange(8 * i, 8 * i + j),
            decreases 8 - j,
        {
            chunk.push(data[i * 8 + j]);
            j = j + 1;
            assert(chunk@ =~= data@.subrange(8 * i, 8 * i + j));
        }
        let plain = decrypt_chunk(&chunk, &ek);
        let mut j: usize = 0;
        let ghost r0 = result@;
        while j < plain.len()
            invariant
                j <= plain@.len(),
                result@ == r0 + plain@.subrange(0, j as int),
            decreases plain@.len() - j,
        {
            result.push(plain[j]);
            j = j + 1;
            assert(result@ =~= r0 + plain@.subrange(0, j as int));
        }
        assert(plain@.subrange(0, plain@.len() as int) =~= plain@);
        i = i + 1;
    }
    result
}

/// The five keys that Native32 headers are encrypted with, in the order tried.
pub open spec fn candidate_key(k: int) -> Seq<u8> {
    if k == 0 {
        seq![49u8, 49, 49, 49, 49, 49, 49, 49]
    } else if k == 1 {
        seq![50u8, 50, 50, 50, 50, 50, 50, 50]
    } else if k == 2 {
        seq![97u8, 97, 97, 97, 97, 97, 97, 97]
    } else if k == 3 {
        seq![98u8, 98, 98, 98, 98, 98, 98, 98]
    } else {
        seq![97u8, 98, 101, 114, 51, 56, 48, 49]
    }
}

fn candidate_key_bytes(k: usize) -> (r: [u8; 8])
    requires
        k < 5,
    ensures
        r@ == candidate_key(k as int),
{
    let r: [u8; 8] = if k == 0 {
        [49, 49, 49, 49, 49, 49, 49, 49]
    } else if k == 1 {
        [50, 50, 50, 50, 50, 50, 50, 50]
    } else if k == 2 {
        [97, 97, 97, 97, 97, 97, 97, 97]
    } else if k == 3 {
        [98, 98, 98, 98, 98, 98, 98, 98]
    } else {
        [97, 98, 101, 114, 51, 56, 48, 49]
    };
    assert(r@ =~= candidate_key(k as int));
    r
}

/// Whether bytes 4..8 of a decrypted header spell `8202`.
pub open spec fn has_header_magic(d: Seq<u8>) -> bool {
    d.len() >= 8 && d[4] == 56 && d[5] == 50 && d[6] == 48 && d[7] == 50
}

/// The decryption under the first candidate key (from `k` on) that yields
/// the header magic.
pub open spec fn first_magic_decryption(data: Seq<u8>, k: int) -> Option<Seq<u8>>
    decreases 5 - k,
{
    if k >= 5 {
        None
    } else if has_header_magic(des_decrypt(data, candidate_key(k))) {
        Some(des_decrypt(data, candidate_key(k)))
    } else {
        first_magic_decryption(data, k + 1)
    }
}

/// The view of an optional byte vector.
pub open spec fn opt_bytes(o: Option<Vec<u8>>) -> Option<Seq<u8>> {
    match o {
        Some(v) => Some(v@),
        None => None,
    }
}

/// Try all 5 candidate keys and return the decrypted header if the `8202` magic is found.
pub fn decrypt_header(data: &[u8]) -> (r: Option<Vec<u8>>)
    ensures
        opt_bytes(r) == first_magic_decryption(data@, 0),
{
    let mut k: usize = 0;
    while k < 5
        invariant
            k <= 5,
            first_magic_decryption(data@, 0) == first_magic_decryption(data@, k as int),
        decreases 5 - k,
    {
        let key = candidate_key_bytes(k);
        let decrypted = do_decrypt(data, &key);
        if decrypted.len() >= 8 && decrypted[4] == 56 && decrypted[5] == 50 && decrypted[6] == 48
            && decrypted[7] == 50 {
            return Some(decrypted);
        }
        k = k + 1;
    }
    None
}

// ---------------------------------------------------------------------------
// Encryption, and decryption undoing it
// ---------------------------------------------------------------------------

/// The 64 message bits with their two 32-bit halves exchanged.
pub open spec fn swap_halves(x: Seq<u8>) -> Seq<u8> {
    Seq::new(64, |m: int| if m < 32 { x[m + 32] } else { x[m - 32] })
}

/// The message bits after `n` rounds, the round keys taken in schedule
/// order from the first one up.
pub open spec fn rounds_forward(ed: Seq<u8>, ek: Seq<u8>, n: int) -> Seq<u8>
    decreases n,
{
    if n <= 0 {
        ed
    } else {
        feistel_round(rounds_forward(ed, ek, n - 1), ek.subrange(48 * (n - 1), 48 * (n - 1) + 48))
    }
}

/// DES encryption of one 8-byte block under the expanded key `ek`, in this
/// cipher's bit order: the initial permutation, the sixteen rounds with
/// the round keys in schedule order run on the block with its halves
/// exchanged (the round function reads the first half), the halves
/// exchanged back, and the final permutation.
pub open spec fn encrypt_block(p: Seq<u8>, ek: Seq<u8>) -> Seq<u8> {
    let ed = swap_halves(permute(bits_of(p, 64), INITIAL_MESSAGE_PERMUTATION@, 64));
    bytes_of(permute(swap_halves(rounds_forward(ed, ek, 16)), FINAL_MESSAGE_PERMUTATION@, 64), 64)
}

/// The final permutation undoes the initial one and the other way round;
/// the round function reads only the first half of the message bits.
proof fn lemma_cipher_tables()
    ensures
        forall|i: int| 0 <= i < 64 ==> #[trigger] FINAL_MESSAGE_PERMUTATION@[INITIAL_MESSAGE_PERMUTATION@[i] - 1] == i + 1,
        forall|i: int| 0 <= i < 64 ==> #[trigger] INITIAL_MESSAGE_PERMUTATION@[FINAL_MESSAGE_PERMUTATION@[i] - 1] == i + 1,
        forall|i: int| 0 <= i < 48 ==> 1 <= #[trigger] MESSAGE_SHUFFLE@[i] <= 32,
        forall|i: int| 0 <= i < 32 ==> 1 <= #[trigger] RIGHT_SUB_MESSAGE_PERMUTATION@[i] <= 32,
        forall|i: int| 0 <= i < 64 ==> 1 <= #[trigger] INITIAL_MESSAGE_PERMUTATION@[i] <= 64,
        forall|i: int| 0 <= i < 64 ==> 1 <= #[trigger] FINAL_MESSAGE_PERMUTATION@[i] <= 64,
{
    reveal(INITIAL_MESSAGE_PERMUTATION);
    reveal(FINAL_MESSAGE_PERMUTATION);
    reveal(MESSAGE_SHUFFLE);
    reveal(RIGHT_SUB_MESSAGE_PERMUTATION);
    let ip = INITIAL_MESSAGE_PERMUTATION@;
    let fp = FINAL_MESSAGE_PERMUTATION@;
    assert forall|i: int| 0 <= i < 64 implies #[trigger] fp[ip[i] - 1] == i + 1 by {
        assert(0 <= i < 64);
    }
    assert forall|i: int| 0 <= i < 64 implies #[trigger] ip[fp[i] - 1] == i + 1 by {
        assert(0 <= i < 64);
    }
}

/// The first 32 bits of a round's output depend only on the first 32
/// bits of its input; the rest of the round's work passes the input's
/// second half through.
proof fn lemma_iteration_halves(z: Seq<u8>, z2: Seq<u8>, key: Seq<u8>)
    requires
        z.len() == 64,
        z2.len() == 64,
        forall|i: int| 0 <= i < 32 ==> z[i] == z2[i],
    ensures
        iteration(z, key).len() == 64,
        forall|m: int| 0 <= m < 32 ==> #[trigger] iteration(z, key)[m] == iteration(z2, key)[m],
        forall|m: int| 0 <= m < 32 ==> #[trigger] iteration(z, key)[m + 32] == z[m + 32],
{
    lemma_cipher_tables();
    assert(mixed(z, key) =~= mixed(z2, key));
    let sb = sbox_out(z, mixed(z, key));
    let sb2 = sbox_out(z2, mixed(z2, key));
    assert forall|m: int| 0 <= m < 32 implies #[trigger] sb[m] == sb2[m] by {}
}

/// A round, the halves exchanged, and the same round again give the input
/// with its halves exchanged: the round key's work cancels.
proof fn lemma_round_undone(z: Seq<u8>, key: Seq<u8>)
    requires
        z.len() == 64,
    ensures
        feistel_round(swap_halves(feistel_round(z, key)), key) == swap_halves(z),
{
    let w = feistel_round(z, key);
    let sw = swap_halves(w);
    lemma_iteration_halves(z, z, key);
    lemma_iteration_halves(sw, z, key);
    let p = iteration(z, key);
    let p2 = iteration(sw, key);
    let out = feistel_round(sw, key);
    assert forall|m: int| 0 <= m < 64 implies #[trigger] out[m] == swap_halves(z)[m] by {
        if m < 32 {
            assert(sw[m] == z[m]);
            assert(p2[m] == p[m]);
            assert(p2[m + 32] == sw[m + 32]);
            assert(sw[m + 32] == w[m]);
            assert(w[m] == p[m] ^ p[m + 32]);
            assert(p[m + 32] == z[m + 32]);
            let a = p[m];
            let b = z[m + 32];
            assert(a ^ (a ^ b) == b) by (bit_vector);
        } else {
            assert(out[m] == sw[m - 32]);
        }
    }
    assert(out =~= swap_halves(z));
}

/// Every round result has 64 bits.
proof fn lemma_rounds_forward_len(ed: Seq<u8>, ek: Seq<u8>, n: int)
    requires
        ed.len() == 64,
    ensures
        rounds_forward(ed, ek, n).len() == 64,
    decreases n,
{
    if n > 0 {
        lemma_rounds_forward_len(ed, ek, n - 1);
    }
}

/// Decryption's rounds, taken from the last round key down, undo the
/// forward rounds one by one.
proof fn lemma_rounds_undo(y: Seq<u8>, ek: Seq<u8>, m: int)
    requires
        y.len() == 64,
        0 <= m <= 16,
    ensures
        rounds(swap_halves(rounds_forward(y, ek, 16)), ek, m) == swap_halves(rounds_forward(y, ek, 16 - m)),
    decreases m,
{
    if m > 0 {
        lemma_rounds_undo(y, ek, m - 1);
        lemma_rounds_forward_len(y, ek, 16 - m);
        lemma_round_undone(
            rounds_forward(y, ek, 16 - m),
            ek.subrange(48 * (16 - m), 48 * (16 - m) + 48),
        );
    }
}

/// The byte that `pack_bits` makes of bits `8k .. 8k + 8`, written out.
proof fn lemma_pack_byte(bits: Seq<u8>, k: int)
    ensures
        pack_bits(bits, k, 8) == ((((((((0u8 | (bits[8 * k] << 0u8)) | (bits[8 * k + 1] << 1u8)) | (
        bits[8 * k + 2] << 2u8)) | (bits[8 * k + 3] << 3u8)) | (bits[8 * k + 4] << 4u8)) | (bits[8 * k
            + 5] << 5u8)) | (bits[8 * k + 6] << 6u8)) | (bits[8 * k + 7] << 7u8)),
{
    assert(pack_bits(bits, k, 0) == 0u8);
    assert(pack_bits(bits, k, 1) == pack_bits(bits, k, 0) | (bits[8 * k] << 0u8));
    assert(pack_bits(bits, k, 2) == pack_bits(bits, k, 1) | (bits[8 * k + 1] << 1u8));
    assert(pack_bits(bits, k, 3) == pack_bits(bits, k, 2) | (bits[8 * k + 2] << 2u8));
    assert(pack_bits(bits, k, 4) == pack_bits(bits, k, 3) | (bits[8 * k + 3] << 3u8));
    assert(pack_bits(bits, k, 5) == pack_bits(bits, k, 4) | (bits[8 * k + 4] << 4u8));
    assert(pack_bits(bits, k, 6) == pack_bits(bits, k, 5) | (bits[8 * k + 5] << 5u8));
    assert(pack_bits(bits, k, 7) == pack_bits(bits, k, 6) | (bits[8 * k + 6] << 6u8));
    assert(pack_bits(bits, k, 8) == pack_bits(bits, k, 7) | (bits[8 * k + 7] << 7u8));
}

/// Bits packed into bytes and taken apart again are the same bits.
proof fn lemma_bits_bytes(w: Seq<u8>)
    requires
        w.len() == 64,
        is_bits(w),
    ensures
        bits_of(bytes_of(w, 64), 64) == w,
{
    let b = bytes_of(w, 64);
    assert forall|i: int| 0 <= i < 64 implies #[trigger] bit_at(b, i) == w[i] by {
        let k = i / 8;
        let j = i % 8;
        assert(0 <= k < 8 && i == 8 * k + j);
        let (b0, b1, b2, b3, b4, b5, b6, b7) = (
            w[8 * k],
            w[8 * k + 1],
            w[8 * k + 2],
            w[8 * k + 3],
            w[8 * k + 4],
            w[8 * k + 5],
            w[8 * k + 6],
            w[8 * k + 7],
        );
        lemma_pack_byte(w, k);
        let v = pack_bits(w, k, 8);
        assert(b0 <= 1 && b1 <= 1 && b2 <= 1 && b3 <= 1 && b4 <= 1 && b5 <= 1 && b6 <= 1 && b7 <= 1);
        let vv = ((((((((0u8 | (b0 << 0u8)) | (b1 << 1u8)) | (b2 << 2u8)) | (b3 << 3u8)) | (b4 << 4u8))
            | (b5 << 5u8)) | (b6 << 6u8)) | (b7 << 7u8));
        assert(v == vv);
        assert(b0 <= 1 && b1 <= 1 && b2 <= 1 && b3 <= 1 && b4 <= 1 && b5 <= 1 && b6 <= 1 && b7 <= 1 ==> (((((((((0u8 | (b0 << 0u8)) | (b1 << 1u8)) | (b2 << 2u8)) | (b3 << 3u8)) | (b4 << 4u8)) | (b5 << 5u8)) | (b6 << 6u8)) | (b7 << 7u8)) >> 0u8) & 1u8 == b0 && (((((((((0u8 | (b0 << 0u8)) | (b1 << 1u8)) | (b2 << 2u8)) | (b3 << 3u8)) | (b4 << 4u8)) | (b5 << 5u8)) | (b6 << 6u8)) | (b7 << 7u8)) >> 1u8) & 1u8 == b1 && (((((((((0u8 | (b0 << 0u8)) | (b1 << 1u8)) | (b2 << 2u8)) | (b3 << 3u8)) | (b4 << 4u8)) | (b5 << 5u8)) | (b6 << 6u8)) | (b7 << 7u8)) >> 2u8) & 1u8 == b2 && (((((((((0u8 | (b0 << 0u8)) | (b1 << 1u8)) | (b2 << 2u8)) | (b3 << 3u8)) | (b4 << 4u8)) | (b5 << 5u8)) | (b6 << 6u8)) | (b7 << 7u8)) >> 3u8) & 1u8 == b3 && (((((((((0u8 | (b0 << 0u8)) | (b1 << 1u8)) | (b2 << 2u8)) | (b3 << 3u8)) | (b4 << 4u8)) | (b5 << 5u8)) | (b6 << 6u8)) | (b7 << 7u8)) >> 4u8) & 1u8 == b4 && (((((((((0u8 | (b0 << 0u8)) | (b1 << 1u8)) | (b2 << 2u8)) | (b3 << 3u8)) | (b4 << 4u8)) | (b5 << 5u8)) | (b6 << 6u8)) | (b7 << 7u8)) >> 5u8) & 1u8 == b5 && (((((((((0u8 | (b0 << 0u8)) | (b1 << 1u8)) | (b2 << 2u8)) | (b3 << 3u8)) | (b4 << 4u8)) | (b5 << 5u8)) | (b6 << 6u8)) | (b7 << 7u8)) >> 6u8) & 1u8 == b6 && (((((((((0u8 | (b0 << 0u8)) | (b1 << 1u8)) | (b2 << 2u8)) | (b3 << 3u8)) | (b4 << 4u8)) | (b5 << 5u8)) | (b6 << 6u8)) | (b7 << 7u8)) >> 7u8) & 1u8 == b7) by (bit_vector);
        assert(w[i] == if j == 0 { b0 } else if j == 1 { b1 } else if j == 2 { b2 } else if j == 3 {
            b3 } else if j == 4 { b4 } else if j == 5 { b5 } else if j == 6 { b6 } else { b7 });
        assert(b[k] == v);
    }
    assert(bits_of(b, 64) =~= w);
}

/// Bytes taken apart into bits and packed again are the same bytes.
proof fn lemma_bytes_bits(p: Seq<u8>)
    requires
        p.len() == 8,
    ensures
        bytes_of(bits_of(p, 64), 64) == p,
{
    let bits = bits_of(p, 64);
    assert forall|k: int| 0 <= k < 8 implies #[trigger] pack_bits(bits, k, 8) == p[k] by {
        lemma_pack_byte(bits, k);
        let x = p[k];
        assert forall|j: int| 0 <= j < 8 implies #[trigger] bits[8 * k + j] == (x >> (j as u8)) & 1u8 by {
            assert((8 * k + j) / 8 == k && (8 * k + j) % 8 == j);
        }
        assert(bits[8 * k] == (x >> 0u8) & 1u8);
        assert(bits[8 * k + 1] == (x >> 1u8) & 1u8);
        assert(bits[8 * k + 2] == (x >> 2u8) & 1u8);
        assert(bits[8 * k + 3] == (x >> 3u8) & 1u8);
        assert(bits[8 * k + 4] == (x >> 4u8) & 1u8);
        assert(bits[8 * k + 5] == (x >> 5u8) & 1u8);
        assert(bits[8 * k + 6] == (x >> 6u8) & 1u8);
        assert(bits[8 * k + 7] == (x >> 7u8) & 1u8);
        assert(((((((((0u8 | (((x >> 0u8) & 1u8) << 0u8)) | (((x >> 1u8) & 1u8) << 1u8)) | (((x
            >> 2u8) & 1u8) << 2u8)) | (((x >> 3u8) & 1u8) << 3u8)) | (((x >> 4u8) & 1u8) << 4u8)) | (((
        x >> 5u8) & 1u8) << 5u8)) | (((x >> 6u8) & 1u8) << 6u8)) | (((x >> 7u8) & 1u8) << 7u8)) == x)
            by (bit_vector);
    }
    assert(bytes_of(bits, 64) =~= p);
}

/// Rounds keep the message bits 0 or 1.
proof fn lemma_rounds_forward_bits(ed: Seq<u8>, ek: Seq<u8>, n: int)
    requires
        ed.len() == 64,
        is_bits(ed),
    ensures
        is_bits(rounds_forward(ed, ek, n)),
    decreases n,
{
    if n > 0 {
        lemma_rounds_forward_bits(ed, ek, n - 1);
        lemma_rounds_forward_len(ed, ek, n - 1);
        let z = rounds_forward(ed, ek, n - 1);
        let key = ek.subrange(48 * (n - 1), 48 * (n - 1) + 48);
        lemma_iteration_halves(z, z, key);
        lemma_cipher_tables();
        let p = iteration(z, key);
        let sb = sbox_out(z, mixed(z, key));
        assert forall|m: int| 0 <= m < 64 implies #[trigger] feistel_round(z, key)[m] <= 1 by {
            if m < 32 {
                let q = RIGHT_SUB_MESSAGE_PERMUTATION@[m] - 1;
                assert(p[m] == sb[q]);
                lemma_bit_le_one(DES_SBOXES@[sbox_index(mixed(z, key), q / 4)], (q % 4) as u8);
                lemma_xor_bits(p[m], p[m + 32]);
            }
        }
    }
}

/// Decryption undoes encryption: decrypting the DES encryption of any
/// 8-byte block under the same round keys gives the block back, the
/// decryption taking the round keys from the last to the first.
pub proof fn lemma_decrypt_inverts_encrypt(p: Seq<u8>, ek: Seq<u8>)
    requires
        p.len() == 8,
        ek.len() == 768,
    ensures
        decrypt_block(encrypt_block(p, ek), ek) == p,
{
    lemma_cipher_tables();
    let ip = INITIAL_MESSAGE_PERMUTATION@;
    let fp = FINAL_MESSAGE_PERMUTATION@;
    let x = permute(bits_of(p, 64), ip, 64);
    let y = swap_halves(x);
    let last = rounds_forward(y, ek, 16);
    lemma_rounds_forward_len(y, ek, 16);
    let w = swap_halves(last);
    let fw = permute(w, fp, 64);
    assert(is_bits(bits_of(p, 64))) by {
        assert forall|i: int| 0 <= i < 64 implies #[trigger] bits_of(p, 64)[i] <= 1 by {
            lemma_bit_le_one(p[i / 8], (i % 8) as u8);
        }
    }
    assert(is_bits(y));
    lemma_rounds_forward_bits(y, ek, 16);
    assert(is_bits(fw));
    lemma_bits_bytes(fw);
    let ed = permute(bits_of(bytes_of(fw, 64), 64), ip, 64);
    assert(ed =~= w);
    lemma_rounds_undo(y, ek, 16);
    assert(rounds(ed, ek, 16) == swap_halves(y));
    assert(swap_halves(y) =~= x);
    assert(permute(x, fp, 64) =~= bits_of(p, 64));
    lemma_bytes_bits(p);
}

/// The encryption of the first `n` 8-byte blocks of `data`, concatenated.
pub open spec fn encrypt_blocks(data: Seq<u8>, ek: Seq<u8>, n: int) -> Seq<u8>
    decreases n,
{
    if n <= 0 {
        Seq::empty()
    } else {
        encrypt_blocks(data, ek, n - 1) + encrypt_block(data.subrange(8 * (n - 1), 8 * n), ek)
    }
}

/// DES-ECB encryption of the whole 8-byte blocks of `data` under `key`.
pub open spec fn des_encrypt(data: Seq<u8>, key: Seq<u8>) -> Seq<u8> {
    encrypt_blocks(data, expanded_key(key), (data.len() / 8) as int)
}

proof fn lemma_encrypt_blocks_prefix(data: Seq<u8>, ek: Seq<u8>, n: int, m: int)
    requires
        0 <= m <= n,
    ensures
        encrypt_blocks(data, ek, n).len() == 8 * n,
        encrypt_blocks(data, ek, n).subrange(0, 8 * m) == encrypt_blocks(data, ek, m),
    decreases n,
{
    if n > 0 {
        let e = encrypt_blocks(data, ek, n - 1);
        lemma_encrypt_blocks_prefix(data, ek, n - 1, if m < n { m } else { n - 1 });
        let blk = encrypt_block(data.subrange(8 * (n - 1), 8 * n), ek);
        assert(blk.len() == 8);
        if m < n {
            assert((e + blk).subrange(0, 8 * m) =~= e.subrange(0, 8 * m));
        } else {
            assert((e + blk).subrange(0, 8 * m) =~= e + blk);
        }
    } else {
        assert(encrypt_blocks(data, ek, n).subrange(0, 8 * m) =~= Seq::<u8>::empty());
    }
}

proof fn lemma_decrypt_encrypted_blocks(data: Seq<u8>, ek: Seq<u8>, n: int, m: int)
    requires
        0 <= m <= n,
        8 * n <= data.len(),
        ek.len() == 768,
    ensures
        decrypt_blocks(encrypt_blocks(data, ek, n), ek, m) == data.subrange(0, 8 * m),
    decreases m,
{
    if m > 0 {
        lemma_decrypt_encrypted_blocks(data, ek, n, m - 1);
        let enc = encrypt_blocks(data, ek, n);
        lemma_encrypt_blocks_prefix(data, ek, n, m);
        lemma_encrypt_blocks_prefix(data, ek, m, m - 1);
        let piece = data.subrange(8 * (m - 1), 8 * m);
        assert(enc.subrange(8 * (m - 1), 8 * m) =~= encrypt_blocks(data, ek, m).subrange(8 * (m - 1), 8 * m));
        assert(encrypt_blocks(data, ek, m).subrange(8 * (m - 1), 8 * m) =~= encrypt_block(piece, ek));
        lemma_decrypt_inverts_encrypt(piece, ek);
        assert(data.subrange(0, 8 * (m - 1)) + piece =~= data.subrange(0, 8 * m));
    } else {
        assert(data.subrange(0, 0) =~= Seq::<u8>::empty());
    }
}

/// Decrypting the DES-ECB encryption of whole 8-byte blocks under a key
/// gives the blocks back.
pub proof fn lemma_des_roundtrip(data: Seq<u8>, key: Seq<u8>)
    requires
        data.len() % 8 == 0,
    ensures
        des_decrypt(des_encrypt(data, key), key) == data,
{
    let ek = expanded_key(key);
    let n = (data.len() / 8) as int;
    lemma_encrypt_blocks_prefix(data, ek, n, n);
    let enc = des_encrypt(data, key);
    assert(enc.len() / 8 == n);
    lemma_decrypt_encrypted_blocks(data, ek, n, n);
    assert(data.subrange(0, 8 * n) =~= data);
}

/// A header encrypted under the first candidate key, whose plaintext
/// carries the `8202` magic, decrypts to that plaintext.
pub proof fn lemma_header_under_first_key(plain: Seq<u8>)
    requires
        plain.len() % 8 == 0,
        has_header_magic(plain),
    ensures
        first_magic_decryption(des_encrypt(plain, candidate_key(0)), 0) == Some(plain),
{
    lemma_des_roundtrip(plain, candidate_key(0));
}

proof fn lemma_decrypt_blocks_len(data: Seq<u8>, ek: Seq<u8>, n: int)
    requires
        0 <= n,
    ensures
        decrypt_blocks(data, ek, n).len() == 8 * n,
    decreases n,
{
    if n > 0 {
        lemma_decrypt_blocks_len(data, ek, n - 1);
    }
}

/// A successful decryption is as long as the whole blocks of the input.
pub proof fn lemma_first_magic_len(data: Seq<u8>, k: int)
    requires
        0 <= k,
    ensures
        first_magic_decryption(data, k) matches Some(dd) ==> dd.len() == 8 * (data.len() / 8),
    decreases 5 - k,
{
    if k < 5 {
        lemma_decrypt_blocks_len(data, expanded_key(candidate_key(k)), (data.len() / 8) as int);
        lemma_first_magic_len(data, k + 1);
    }
}

} // verus!
