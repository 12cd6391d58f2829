//! CRC-32 (IEEE), for detecting damage to stored bytes.

use vstd::prelude::*;

verus! {

/// Divide one bit out of the register, by the reversed polynomial.
pub open spec fn shift_bit(c: u32) -> u32 {
    if c & 1 == 1 {
        (c >> 1) ^ 0xEDB8_8320
    } else {
        c >> 1
    }
}

/// Divide `n` bits out of the register.
pub open spec fn shift_bits(c: u32, n: nat) -> u32
    decreases n,
{
    if n == 0 {
        c
    } else {
        shift_bit(shift_bits(c, (n - 1) as nat))
    }
}

/// The register after one more byte.
pub open spec fn crc_step(c: u32, byte: u8) -> u32 {
    shift_bits(c ^ (byte as u32), 8)
}

/// The register after all the bytes of `data`; it starts with every bit set.
pub open spec fn crc_register(data: Seq<u8>) -> u32
    decreases data.len(),
{
    if data.len() == 0 {
        !0u32
    } else {
        crc_step(crc_register(data.drop_last()), data.last())
    }
}

/// The CRC-32 of `data`.
pub open spec fn crc_of(data: Seq<u8>) -> u32 {
    !crc_register(data)
}

/// Dividing is injective: no two registers come to the same one.
proof fn shift_bit_injective(c: u32, d: u32)
    requires
        shift_bit(c) == shift_bit(d),
    ensures
        c == d,
{
    assert((if c & 1 == 1 { (c >> 1) ^ 0xEDB8_8320u32 } else { c >> 1 }) == (if d & 1 == 1 {
        (d >> 1) ^ 0xEDB8_8320u32
    } else {
        d >> 1
    }) ==> c == d) by (bit_vector);
}

/// Dividing several bits out is injective.
proof fn shift_bits_injective(c: u32, d: u32, n: nat)
    requires
        shift_bits(c, n) == shift_bits(d, n),
    ensures
        c == d,
    decreases n,
{
    if n > 0 {
        shift_bit_injective(shift_bits(c, (n - 1) as nat), shift_bits(d, (n - 1) as nat));
        shift_bits_injective(c, d, (n - 1) as nat);
    }
}

/// Different registers stay different after the same byte, and the same register
/// comes to different ones after different bytes.
proof fn crc_step_injective(c: u32, d: u32, a: u8, b: u8)
    ensures
        c != d ==> crc_step(c, a) != crc_step(d, a),
        a != b ==> crc_step(c, a) != crc_step(c, b),
{
    if crc_step(c, a) == crc_step(d, a) {
        shift_bits_injective(c ^ (a as u32), d ^ (a as u32), 8);
        let x = a as u32;
        assert(c ^ x == d ^ x ==> c == d) by (bit_vector);
    }
    if crc_step(c, a) == crc_step(c, b) {
        shift_bits_injective(c ^ (a as u32), c ^ (b as u32), 8);
        let x = a as u32;
        let y = b as u32;
        assert(c ^ x == c ^ y ==> x == y) by (bit_vector);
    }
}

/// Changing one byte, and only one, always changes the CRC-32.
pub proof fn one_changed_byte_changes_crc(data: Seq<u8>, i: int, b: u8)
    requires
        0 <= i < data.len(),
        b != data[i],
    ensures
        crc_of(data.update(i, b)) != crc_of(data),
{
    one_changed_byte_changes_register(data, i, b);
    let x = crc_register(data);
    let y = crc_register(data.update(i, b));
    assert(x != y ==> !x != !y) by (bit_vector);
}

proof fn one_changed_byte_changes_register(data: Seq<u8>, i: int, b: u8)
    requires
        0 <= i < data.len(),
        b != data[i],
    ensures
        crc_register(data.update(i, b)) != crc_register(data),
    decreases data.len(),
{
    let next = data.update(i, b);
    let c = crc_register(data.drop_last());
    if i == data.len() - 1 {
        assert(next.drop_last() =~= data.drop_last());
        crc_step_injective(c, c, data.last(), b);
    } else {
        assert(next.drop_last() =~= data.drop_last().update(i, b));
        one_changed_byte_changes_register(data.drop_last(), i, b);
        crc_step_injective(c, crc_register(next.drop_last()), data.last(), b);
    }
}

/// The register after the bytes of `data`, from the register `c` on.
pub open spec fn crc_run(c: u32, data: Seq<u8>) -> u32
    decreases data.len(),
{
    if data.len() == 0 {
        c
    } else {
        crc_run(crc_step(c, data[0]), data.skip(1))
    }
}

/// The register after all bytes is that of the first ones, run over the others.
proof fn register_runs(data: Seq<u8>, p: int)
    requires
        0 <= p <= data.len(),
    ensures
        crc_register(data) == crc_run(crc_register(data.take(p)), data.skip(p)),
    decreases data.len() - p,
{
    if p == data.len() {
        assert(data.take(p) =~= data);
    } else {
        register_runs(data, p + 1);
        assert(data.take(p + 1).drop_last() =~= data.take(p));
        assert(data.skip(p).skip(1) =~= data.skip(p + 1));
    }
}

/// Different registers stay different over the same bytes.
proof fn run_injective(c: u32, d: u32, data: Seq<u8>)
    requires
        c != d,
    ensures
        crc_run(c, data) != crc_run(d, data),
    decreases data.len(),
{
    if data.len() > 0 {
        crc_step_injective(c, d, data[0], data[0]);
        run_injective(crc_step(c, data[0]), crc_step(d, data[0]), data.skip(1));
    }
}

/// Up to four bytes as the register takes them in, the first one lowest.
spec fn word_of(data: Seq<u8>) -> u32
    decreases data.len(),
{
    if data.len() == 0 {
        0
    } else {
        (data[0] as u32) | (word_of(data.skip(1)) << 8)
    }
}

/// Up to three bytes leave the highest byte of the word free.
proof fn word_bound(data: Seq<u8>)
    requires
        data.len() <= 3,
    ensures
        data.len() == 0 ==> word_of(data) == 0,
        data.len() <= 1 ==> word_of(data) < 0x100,
        data.len() <= 2 ==> word_of(data) < 0x1_0000,
        word_of(data) < 0x100_0000,
    decreases data.len(),
{
    if data.len() > 0 {
        word_bound(data.skip(1));
        let x = data[0] as u32;
        let y = word_of(data.skip(1));
        assert(x < 256 && y == 0 ==> (x | (y << 8)) < 0x100) by (bit_vector);
        assert(x < 256 && y < 0x100 ==> (x | (y << 8)) < 0x1_0000) by (bit_vector);
        assert(x < 256 && y < 0x1_0000 ==> (x | (y << 8)) < 0x100_0000) by (bit_vector);
    }
}

/// Different bytes make different words.
proof fn word_injective(a: Seq<u8>, b: Seq<u8>)
    requires
        a.len() == b.len() <= 4,
        word_of(a) == word_of(b),
    ensures
        a == b,
    decreases a.len(),
{
    if a.len() > 0 {
        word_bound(a.skip(1));
        word_bound(b.skip(1));
        let x = a[0] as u32;
        let y = b[0] as u32;
        let v = word_of(a.skip(1));
        let w = word_of(b.skip(1));
        assert(x < 256 && y < 256 && v < 0x100_0000 && w < 0x100_0000 && (x | (v << 8)) == (y | (w
            << 8)) ==> x == y && v == w) by (bit_vector);
        word_injective(a.skip(1), b.skip(1));
        assert(a =~= seq![a[0]] + a.skip(1));
        assert(b =~= seq![b[0]] + b.skip(1));
    } else {
        assert(a =~= b);
    }
}

/// Bits divided out in two parts.
proof fn shift_bits_join(c: u32, m: nat, n: nat)
    ensures
        shift_bits(c, m + n) == shift_bits(shift_bits(c, m), n),
    decreases n,
{
    if n > 0 {
        shift_bits_join(c, m, (n - 1) as nat);
        assert((m + n - 1) as nat == m + (n - 1) as nat);
    }
}

/// A byte that is taken in early waits above those before it: dividing eight bits out
/// moves it down, and leaves it as it was.
proof fn shift_over(c: u32, byte: u8, rest: u32)
    requires
        rest < 0x100_0000,
    ensures
        shift_bits(c ^ ((byte as u32) | (rest << 8)), 8) == crc_step(c, byte) ^ rest,
{
    reveal_with_fuel(shift_bits, 9);
    let b = byte as u32;
    assert(b < 256 && rest < 0x100_0000 ==> shift_bit(
        shift_bit(
            shift_bit(
                shift_bit(shift_bit(shift_bit(shift_bit(shift_bit(c ^ (b | (rest << 8))))))),
            ),
        ),
    ) == shift_bit(
        shift_bit(shift_bit(shift_bit(shift_bit(shift_bit(shift_bit(shift_bit(c ^ b))))))),
    ) ^ rest) by (bit_vector);
}

/// Running over up to four bytes is taking all of them in and dividing their bits out.
proof fn run_is_word(c: u32, data: Seq<u8>)
    requires
        data.len() <= 4,
    ensures
        crc_run(c, data) == shift_bits(c ^ word_of(data), 8 * data.len()),
    decreases data.len(),
{
    if data.len() == 0 {
        assert(c ^ 0 == c) by (bit_vector);
    } else {
        let rest = data.skip(1);
        let w = word_of(rest);
        word_bound(rest);
        shift_over(c, data[0], w);
        run_is_word(crc_step(c, data[0]), rest);
        shift_bits_join(c ^ word_of(data), 8, 8 * rest.len());
        assert(8 + 8 * rest.len() == 8 * data.len());
    }
}

/// A burst of changes that lie within four neighbouring bytes always changes the CRC-32.
pub proof fn burst_changes_crc(a: Seq<u8>, b: Seq<u8>, p: int)
    requires
        a.len() == b.len(),
        a != b,
        0 <= p,
        forall|i: int| 0 <= i < a.len() && !(p <= i < p + 4) ==> a[i] == b[i],
    ensures
        crc_of(a) != crc_of(b),
{
    let from = if p <= a.len() {
        p
    } else {
        a.len() as int
    };
    let to = if p + 4 <= a.len() {
        p + 4
    } else {
        a.len() as int
    };
    let c = crc_register(a.take(from));
    assert(a.take(from) =~= b.take(from));
    assert(a.skip(to) =~= b.skip(to));
    let x = a.subrange(from, to);
    let y = b.subrange(from, to);
    if x == y {
        assert(a =~= a.take(from) + x + a.skip(to));
        assert(b =~= b.take(from) + y + b.skip(to));
    }
    register_runs(a.take(to), from);
    register_runs(b.take(to), from);
    assert(a.take(to).take(from) =~= a.take(from));
    assert(b.take(to).take(from) =~= b.take(from));
    assert(a.take(to).skip(from) =~= x);
    assert(b.take(to).skip(from) =~= y);
    run_is_word(c, x);
    run_is_word(c, y);
    let v = word_of(x);
    let w = word_of(y);
    if crc_run(c, x) == crc_run(c, y) {
        shift_bits_injective(c ^ v, c ^ w, 8 * x.len());
        assert(c ^ v == c ^ w ==> v == w) by (bit_vector);
        word_injective(x, y);
    }
    register_runs(a, to);
    register_runs(b, to);
    run_injective(crc_run(c, x), crc_run(c, y), a.skip(to));
    let m = crc_register(a);
    let n = crc_register(b);
    assert(m != n ==> !m != !n) by (bit_vector);
}

/// Dividing eight bits out is looking the low byte up and shifting the rest.
proof fn shift_by_table(c: u32, byte: u8)
    ensures
        crc_step(c, byte) == (c >> 8) ^ shift_bits((c ^ (byte as u32)) & 0xff, 8),
{
    reveal_with_fuel(shift_bits, 9);
    let x = c ^ (byte as u32);
    let b = byte as u32;
    assert(b < 256 ==> (c ^ b) >> 8 == c >> 8) by (bit_vector);
    assert(shift_bit(shift_bit(shift_bit(shift_bit(shift_bit(shift_bit(shift_bit(shift_bit(x))))))))
        == (x >> 8) ^ shift_bit(
        shift_bit(
            shift_bit(shift_bit(shift_bit(shift_bit(shift_bit(shift_bit(x & 0xff))))))))
    ) by (bit_vector);
}

/// What each low byte of the register comes to when eight bits are divided out.
pub fn crc_table() -> (table: [u32; 256])
    ensures
        forall|i: int| 0 <= i < 256 ==> #[trigger] table@[i] == shift_bits(i as u32, 8),
{
    let mut table: [u32; 256] = [0u32; 256];
    let mut i: usize = 0;
    while i < 256
        invariant
            i <= 256,
            forall|k: int| 0 <= k < i ==> #[trigger] table@[k] == shift_bits(k as u32, 8),
        decreases 256 - i,
    {
        let mut crc: u32 = i as u32;
        let mut j: u32 = 0;
        while j < 8
            invariant
                j <= 8,
                crc == shift_bits(i as u32, j as nat),
            decreases 8 - j,
        {
            crc = if crc & 1 == 1 {
                (crc >> 1) ^ 0xEDB8_8320
            } else {
                crc >> 1
            };
            j += 1;
        }
        table[i] = crc;
        i += 1;
    }
    table
}

/// The CRC-32 of `data`.
pub fn crc32(data: &[u8]) -> (crc: u32)
    ensures
        crc == crc_of(data@),
{
    let table = crc_table();
    let mut crc: u32 = !0u32;
    let mut i: usize = 0;
    while i < data.len()
        invariant
            i <= data.len(),
            crc == crc_register(data@.take(i as int)),
            forall|k: int| 0 <= k < 256 ==> #[trigger] table@[k] == shift_bits(k as u32, 8),
        decreases data.len() - i,
    {
        let byte: u8 = data[i];
        let low: u32 = (crc ^ (byte as u32)) & 0xff;
        proof {
            let x = crc ^ (byte as u32);
            assert(x & 0xff < 256) by (bit_vector);
            shift_by_table(crc, byte);
            assert(data@.take(i + 1).drop_last() =~= data@.take(i as int));
        }
        crc = (crc >> 8) ^ table[low as usize];
        i += 1;
    }
    proof {
        assert(data@.take(i as int) =~= data@);
    }
    !crc
}

} // verus!
