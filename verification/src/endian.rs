//! Integers as byte sequences: the value that a run of bytes denotes in
//! either byte order, and the conversions between the two.

use vstd::prelude::*;

verus! {

/// The order in which the bytes of an integer follow each other.
#[derive(Clone, Copy, Debug, PartialEq, Eq, Structural)]
pub enum ByteOrder {
    /// Lowest byte first.
    LittleEndian,
    /// Highest byte first.
    BigEndian,
}

/// 256 to the power of `n`.
pub open spec fn pow256(n: nat) -> nat
    decreases n,
{
    if n == 0 {
        1
    } else {
        256 * pow256((n - 1) as nat)
    }
}

/// The number that `bytes` denote, lowest byte first.
pub open spec fn le_value(bytes: Seq<u8>) -> nat
    decreases bytes.len(),
{
    if bytes.len() == 0 {
        0
    } else {
        bytes[0] as nat + 256 * le_value(bytes.skip(1))
    }
}

/// The number that `bytes` denote, highest byte first.
pub open spec fn be_value(bytes: Seq<u8>) -> nat
    decreases bytes.len(),
{
    if bytes.len() == 0 {
        0
    } else {
        256 * be_value(bytes.drop_last()) + bytes.last() as nat
    }
}

/// The unsigned number that `bytes` denote in the given order.
pub open spec fn unsigned_value(bytes: Seq<u8>, order: ByteOrder) -> nat {
    match order {
        ByteOrder::LittleEndian => le_value(bytes),
        ByteOrder::BigEndian => be_value(bytes),
    }
}

/// The highest byte of `bytes` in the given order.
pub open spec fn top_byte(bytes: Seq<u8>, order: ByteOrder) -> u8
    recommends
        bytes.len() > 0,
{
    match order {
        ByteOrder::LittleEndian => bytes.last(),
        ByteOrder::BigEndian => bytes.first(),
    }
}

/// The two's complement number that `bytes` denote in the given order.
pub open spec fn signed_value(bytes: Seq<u8>, order: ByteOrder) -> int {
    if bytes.len() > 0 && top_byte(bytes, order) >= 128 {
        unsigned_value(bytes, order) - pow256(bytes.len())
    } else {
        unsigned_value(bytes, order) as int
    }
}

/// `value` in `width` bytes, lowest byte first.
pub open spec fn le_bytes(value: nat, width: nat) -> Seq<u8> {
    Seq::new(width, |i: int| ((value / pow256(i as nat)) % 256) as u8)
}

/// Appending a byte adds it at the weight of its position.
pub proof fn lemma_le_value_push(bytes: Seq<u8>, byte: u8)
    ensures
        le_value(bytes.push(byte)) == le_value(bytes) + byte as nat * pow256(bytes.len()),
    decreases bytes.len(),
{
    let longer = bytes.push(byte);
    if bytes.len() == 0 {
        assert(longer.skip(1) =~= Seq::<u8>::empty());
        assert(le_value(longer.skip(1)) == 0);
        assert(longer[0] == byte);
        assert(pow256(0) == 1);
        assert(byte as nat * 1 == byte as nat);
    } else {
        assert(longer.skip(1) =~= bytes.skip(1).push(byte));
        assert(longer[0] == bytes[0]);
        lemma_le_value_push(bytes.skip(1), byte);
        let tail = le_value(bytes.skip(1));
        let weight = pow256(bytes.skip(1).len());
        assert(pow256(bytes.len()) == 256 * weight);
        assert(256 * (tail + byte as nat * weight) == 256 * tail + byte as nat * (256 * weight))
            by (nonlinear_arith);
    }
}

/// A run of bytes denotes a number below 256 to the power of its length.
pub proof fn lemma_le_value_bound(bytes: Seq<u8>)
    ensures
        le_value(bytes) < pow256(bytes.len()),
    decreases bytes.len(),
{
    if bytes.len() > 0 {
        lemma_le_value_bound(bytes.skip(1));
    }
}

/// The number that the reversed bytes denote highest byte first is the one
/// that the bytes denote lowest byte first.
pub proof fn lemma_be_value_reverse(bytes: Seq<u8>)
    ensures
        be_value(bytes.reverse()) == le_value(bytes),
    decreases bytes.len(),
{
    if bytes.len() > 0 {
        let r = bytes.reverse();
        assert(r.drop_last() =~= bytes.skip(1).reverse());
        assert(r.last() == bytes[0]);
        lemma_be_value_reverse(bytes.skip(1));
    }
}

/// The concrete powers of 256 that fit in 64 bits.
pub proof fn lemma_pow256_values()
    ensures
        pow256(0) == 1,
        pow256(1) == 0x100,
        pow256(2) == 0x1_0000,
        pow256(3) == 0x100_0000,
        pow256(4) == 0x1_0000_0000,
        pow256(5) == 0x100_0000_0000,
        pow256(6) == 0x1_0000_0000_0000,
        pow256(7) == 0x100_0000_0000_0000,
        pow256(8) == 0x1_0000_0000_0000_0000,
{
    reveal_with_fuel(pow256, 10);
}

/// Reads up to eight bytes as a number, lowest byte first.
pub fn decode_le(bytes: &[u8]) -> (value: u64)
    requires
        bytes@.len() <= 8,
    ensures
        value == le_value(bytes@),
{
    let n: usize = bytes.len();
    let mut value: u64 = 0;
    let mut i: usize = n;
    proof {
        assert(bytes@.skip(n as int) =~= Seq::<u8>::empty());
        lemma_pow256_values();
    }
    while i > 0
        invariant
            i <= n,
            n == bytes@.len(),
            n <= 8,
            value == le_value(bytes@.skip(i as int)),
            value < pow256((n - i) as nat),
        decreases i,
    {
        i -= 1;
        proof {
            assert(bytes@.skip(i as int).skip(1) =~= bytes@.skip(i + 1));
            assert(bytes@.skip(i as int)[0] == bytes@[i as int]);
            lemma_le_value_bound(bytes@.skip(i as int));
            lemma_pow256_values();
            assert(pow256((n - i) as nat) <= pow256(8)) by {
                lemma_pow256_monotonic((n - i) as nat, 8);
            }
        }
        value = value * 256 + bytes[i] as u64;
    }
    assert(bytes@.skip(0) =~= bytes@);
    value
}

/// A larger exponent gives a power of 256 that is not smaller.
pub proof fn lemma_pow256_monotonic(low: nat, high: nat)
    requires
        low <= high,
    ensures
        pow256(low) <= pow256(high),
        pow256(low) >= 1,
    decreases high,
{
    if low < high {
        lemma_pow256_monotonic(low, (high - 1) as nat);
    } else if low > 0 {
        lemma_pow256_monotonic((low - 1) as nat, (low - 1) as nat);
    }
}

/// The bytes of a number that fits in `width` bytes denote that number.
pub proof fn lemma_le_value_of_le_bytes(value: nat, width: nat)
    requires
        value < pow256(width),
    ensures
        le_bytes(value, width).len() == width,
        le_value(le_bytes(value, width)) == value,
    decreases width,
{
    let bytes = le_bytes(value, width);
    if width > 0 {
        let rest = value / 256;
        assert(rest < pow256((width - 1) as nat)) by (nonlinear_arith)
            requires
                value < 256 * pow256((width - 1) as nat),
                rest == value / 256,
        ;
        lemma_le_value_of_le_bytes(rest, (width - 1) as nat);
        assert(bytes.skip(1) =~= le_bytes(rest, (width - 1) as nat)) by {
            assert forall|i: int| 0 <= i < width - 1 implies bytes.skip(1)[i] == le_bytes(
                rest,
                (width - 1) as nat,
            )[i] by {
                lemma_pow256_monotonic(0, i as nat);
                vstd::arithmetic::div_mod::lemma_div_denominator(
                    value as int,
                    256,
                    pow256(i as nat) as int,
                );
                assert(pow256((i + 1) as nat) == 256 * pow256(i as nat));
            }
        }
        assert(pow256(0) == 1);
        assert(value / 1 == value);
        assert(bytes[0] == ((value / pow256(0)) % 256) as u8);
        assert(bytes[0] == (value % 256) as u8);
        assert(value == 256 * (value / 256) + value % 256);
    }
}

/// Writes `value` as `width` bytes, lowest byte first.
pub fn encode_le(value: u64, width: usize) -> (bytes: Vec<u8>)
    requires
        width <= 8,
    ensures
        bytes@ == le_bytes(value as nat, width as nat),
{
    let mut bytes: Vec<u8> = Vec::new();
    let mut rest: u64 = value;
    let mut i: usize = 0;
    assert(pow256(0) == 1);
    while i < width
        invariant
            i <= width,
            width <= 8,
            bytes@.len() == i,
            rest == value as nat / pow256(i as nat),
            forall|k: int| 0 <= k < i ==> bytes@[k] == le_bytes(value as nat, width as nat)[k],
        decreases width - i,
    {
        let low: u8 = (rest % 256) as u8;
        proof {
            lemma_pow256_monotonic(0, i as nat);
            vstd::arithmetic::div_mod::lemma_div_denominator(
                value as int,
                pow256(i as nat) as int,
                256,
            );
            assert(pow256((i + 1) as nat) == pow256(i as nat) * 256) by (nonlinear_arith)
                requires
                    pow256((i + 1) as nat) == 256 * pow256(i as nat),
            ;
        }
        bytes.push(low);
        rest = rest / 256;
        i += 1;
    }
    assert(bytes@ =~= le_bytes(value as nat, width as nat));
    bytes
}

/// The byte that extends `element` to a wider integer: all ones for a
/// negative signed number, zero otherwise.
pub open spec fn extension_byte(element: Seq<u8>, signed: bool, order: ByteOrder) -> u8 {
    if signed && element.len() > 0 && top_byte(element, order) >= 128 {
        0xff
    } else {
        0
    }
}

/// The integer `element` in `width` bytes, in the same byte order: extended
/// by its sign where `width` is larger, cut down to its low bytes where
/// `width` is smaller.
pub open spec fn resized_integer(element: Seq<u8>, width: nat, signed: bool, order: ByteOrder) -> Seq<
    u8,
> {
    if width <= element.len() {
        match order {
            ByteOrder::LittleEndian => element.take(width as int),
            ByteOrder::BigEndian => element.skip(element.len() - width),
        }
    } else {
        let extension = Seq::new(
            (width - element.len()) as nat,
            |i: int| extension_byte(element, signed, order),
        );
        match order {
            ByteOrder::LittleEndian => element + extension,
            ByteOrder::BigEndian => extension + element,
        }
    }
}

/// The power of a sum is the product of the powers.
pub proof fn lemma_pow256_add(a: nat, b: nat)
    ensures
        pow256(a + b) == pow256(a) * pow256(b),
    decreases b,
{
    if b == 0 {
        assert(pow256(a) * 1 == pow256(a)) by (nonlinear_arith);
    } else {
        lemma_pow256_add(a, (b - 1) as nat);
        assert(pow256(a + b) == 256 * pow256((a + b - 1) as nat));
        assert(256 * (pow256(a) * pow256((b - 1) as nat)) == pow256(a) * (256 * pow256(
            (b - 1) as nat,
        ))) by (nonlinear_arith);
    }
}

/// Bytes put behind others count at the weight of their place.
pub proof fn lemma_le_value_concat(low: Seq<u8>, high: Seq<u8>)
    ensures
        le_value(low + high) == le_value(low) + pow256(low.len()) * le_value(high),
    decreases high.len(),
{
    if high.len() == 0 {
        assert(low + high =~= low);
        assert(pow256(low.len()) * 0 == 0) by (nonlinear_arith);
    } else {
        let shorter = high.drop_last();
        let top = high.last();
        assert(low + high =~= (low + shorter).push(top));
        assert(shorter.push(top) =~= high);
        lemma_le_value_push(low + shorter, top);
        lemma_le_value_push(shorter, top);
        lemma_le_value_concat(low, shorter);
        lemma_pow256_add(low.len(), shorter.len());
        let a = pow256(low.len());
        let b = pow256(shorter.len());
        let v = le_value(shorter);
        assert(a * (v + top as nat * b) == a * v + top as nat * (a * b)) by (nonlinear_arith);
    }
}

/// Bytes that all are `byte` denote `byte` times the sum of the weights.
pub proof fn lemma_le_value_of_constant(byte: u8, count: nat)
    ensures
        le_value(Seq::new(count, |i: int| byte)) * 255 == byte as nat * (pow256(count) - 1),
    decreases count,
{
    let bytes = Seq::new(count, |i: int| byte);
    if count > 0 {
        assert(bytes.skip(1) =~= Seq::new((count - 1) as nat, |i: int| byte));
        lemma_le_value_of_constant(byte, (count - 1) as nat);
        let rest = le_value(bytes.skip(1));
        let p = pow256((count - 1) as nat);
        assert(bytes[0] == byte);
        assert(le_value(bytes) == byte as nat + 256 * rest);
        assert(pow256(count) == 256 * p);
        assert((byte as nat + 256 * rest) * 255 == byte as nat * (256 * p - 1)) by (nonlinear_arith)
            requires
                rest * 255 == byte as nat * (p - 1),
        ;
    } else {
        assert(le_value(bytes) == 0);
        assert(pow256(0) == 1);
        assert(byte as nat * (1 - 1) == 0) by (nonlinear_arith);
    }
}

/// What a run of bytes denotes highest byte first, its reverse denotes
/// lowest byte first, as an unsigned and as a signed number.
pub proof fn lemma_value_of_reverse(bytes: Seq<u8>)
    ensures
        unsigned_value(bytes, ByteOrder::BigEndian) == unsigned_value(
            bytes.reverse(),
            ByteOrder::LittleEndian,
        ),
        signed_value(bytes, ByteOrder::BigEndian) == signed_value(
            bytes.reverse(),
            ByteOrder::LittleEndian,
        ),
{
    lemma_be_value_reverse(bytes.reverse());
    assert(bytes.reverse().reverse() =~= bytes);
    if bytes.len() > 0 {
        assert(bytes.reverse().last() == bytes.first());
    }
}

/// An integer that is extended to more bytes keeps its number: its unsigned
/// number where it is extended as an unsigned integer, its two's
/// complement number where it is extended as a signed one.
pub proof fn lemma_extension_keeps_value(
    element: Seq<u8>,
    width: nat,
    signed: bool,
    order: ByteOrder,
)
    requires
        0 < element.len() <= width,
    ensures
        resized_integer(element, width, signed, order).len() == width,
        signed ==> signed_value(resized_integer(element, width, signed, order), order)
            == signed_value(element, order),
        !signed ==> unsigned_value(resized_integer(element, width, signed, order), order)
            == unsigned_value(element, order),
    decreases
            (if order == ByteOrder::BigEndian {
                1nat
            } else {
                0nat
            }),
{
    match order {
        ByteOrder::LittleEndian => {
            let wide = resized_integer(element, width, signed, order);
            let count = (width - element.len()) as nat;
            let byte = extension_byte(element, signed, order);
            let extension = Seq::new(count, |i: int| byte);
            if count == 0 {
                assert(wide =~= element);
            } else {
                assert(wide =~= element + extension);
                lemma_le_value_concat(element, extension);
                lemma_le_value_of_constant(byte, count);
                lemma_pow256_add(element.len(), count);
                lemma_pow256_monotonic(0, count);
                lemma_pow256_monotonic(0, element.len());
                assert(wide.last() == byte);
                let high = le_value(extension);
                let a = pow256(element.len());
                let b = pow256(count);
                if byte == 0 {
                    assert(high * 255 == 0);
                    assert(a * high == 0) by (nonlinear_arith)
                        requires
                            high == 0,
                    ;
                } else {
                    assert(high * 255 == 255 * (b - 1));
                    assert(a * high == a * b - a) by (nonlinear_arith)
                        requires
                            high == b - 1,
                    ;
                }
            }
        },
        ByteOrder::BigEndian => {
            let wide = resized_integer(element, width, signed, order);
            let turned = element.reverse();
            assert(wide.reverse() =~= resized_integer(
                turned,
                width,
                signed,
                ByteOrder::LittleEndian,
            )) by {
                assert(turned.last() == element.first());
            }
            lemma_extension_keeps_value(turned, width, signed, ByteOrder::LittleEndian);
            lemma_value_of_reverse(wide);
            lemma_value_of_reverse(element);
        },
    }
}

/// An integer that is cut down to fewer bytes keeps the remainder of its
/// unsigned number by 256 to the power of the bytes kept.
pub proof fn lemma_truncation_keeps_remainder(
    element: Seq<u8>,
    width: nat,
    signed: bool,
    order: ByteOrder,
)
    requires
        width <= element.len(),
    ensures
        resized_integer(element, width, signed, order).len() == width,
        unsigned_value(resized_integer(element, width, signed, order), order) == unsigned_value(
            element,
            order,
        ) % pow256(width),
    decreases
            (if order == ByteOrder::BigEndian {
                1nat
            } else {
                0nat
            }),
{
    match order {
        ByteOrder::LittleEndian => {
            let low = element.take(width as int);
            let high = element.skip(width as int);
            assert(low + high =~= element);
            lemma_le_value_concat(low, high);
            lemma_le_value_bound(low);
            lemma_pow256_monotonic(0, width);
            assert(le_value(high) * pow256(width) == pow256(width) * le_value(high))
                by (nonlinear_arith);
            assert(le_value(element) == le_value(high) * pow256(width) + le_value(low));
            vstd::arithmetic::div_mod::lemma_fundamental_div_mod_converse_mod(
                le_value(element) as int,
                pow256(width) as int,
                le_value(high) as int,
                le_value(low) as int,
            );
        },
        ByteOrder::BigEndian => {
            let narrow = resized_integer(element, width, signed, order);
            let turned = element.reverse();
            assert(narrow.reverse() =~= resized_integer(
                turned,
                width,
                signed,
                ByteOrder::LittleEndian,
            ));
            lemma_truncation_keeps_remainder(turned, width, signed, ByteOrder::LittleEndian);
            lemma_value_of_reverse(narrow);
            lemma_value_of_reverse(element);
        },
    }
}

/// Extending an integer and cutting the result down to the bytes it had
/// gives the integer back.
pub proof fn lemma_extend_then_truncate(
    element: Seq<u8>,
    width: nat,
    signed: bool,
    back_signed: bool,
    order: ByteOrder,
)
    requires
        element.len() <= width,
    ensures
        resized_integer(
            resized_integer(element, width, signed, order),
            element.len(),
            back_signed,
            order,
        ) == element,
{
    let wide = resized_integer(element, width, signed, order);
    assert(resized_integer(wide, element.len(), back_signed, order) =~= element);
}

/// Writes the integer held in the `width` bytes of `source` from `from` on
/// into the `target_width` bytes of `target` from `at` on, extended by its
/// sign or cut down to its low bytes.
pub fn resize_integer(
    target: &mut [u8],
    at: usize,
    target_width: usize,
    source: &[u8],
    from: usize,
    width: usize,
    signed: bool,
    order: ByteOrder,
)
    requires
        at + target_width <= old(target)@.len(),
        from + width <= source@.len(),
    ensures
        final(target)@ == old(target)@.subrange(0, at as int) + resized_integer(
            source@.subrange(from as int, from + width),
            target_width as nat,
            signed,
            order,
        ) + old(target)@.subrange(at + target_width, old(target)@.len() as int),
{
    let target_len: usize = target.len();
    let source_len: usize = source.len();
    let ghost element = source@.subrange(from as int, from + width);
    let ghost wanted = resized_integer(element, target_width as nat, signed, order);
    let extension: u8 = if signed && width > 0 && (match order {
        ByteOrder::LittleEndian => source[from + width - 1],
        ByteOrder::BigEndian => source[from],
    }) >= 128 {
        0xff
    } else {
        0
    };
    assert(extension == extension_byte(element, signed, order));
    let mut k: usize = 0;
    while k < target_width
        invariant
            k <= target_width,
            target@.len() == target_len,
            target_len == old(target)@.len(),
            at + target_width <= target_len,
            from + width <= source_len,
            source_len == source@.len(),
            element == source@.subrange(from as int, from + width),
            wanted == resized_integer(element, target_width as nat, signed, order),
            wanted.len() == target_width,
            extension == extension_byte(element, signed, order),
            target@ == old(target)@.subrange(0, at as int) + wanted.take(k as int) + old(
                target,
            )@.subrange(at + k, target_len as int),
        decreases target_width - k,
    {
        let byte: u8 = match order {
            ByteOrder::LittleEndian => if k < width {
                source[from + k]
            } else {
                extension
            },
            ByteOrder::BigEndian => if target_width <= width {
                source[from + (width - target_width) + k]
            } else if k < target_width - width {
                extension
            } else {
                source[from + (k - (target_width - width))]
            },
        };
        assert(byte == wanted[k as int]);
        target[at + k] = byte;
        assert(target@ =~= old(target)@.subrange(0, at as int) + wanted.take(k + 1) + old(
            target,
        )@.subrange(at + k + 1, target_len as int));
        k += 1;
    }
    assert(wanted.take(target_width as int) =~= wanted);
}

/// `bytes`, given lowest byte first, in the given order.
pub open spec fn in_order(bytes: Seq<u8>, order: ByteOrder) -> Seq<u8> {
    match order {
        ByteOrder::LittleEndian => bytes,
        ByteOrder::BigEndian => bytes.reverse(),
    }
}

/// `value` in `width` bytes in the given order.
pub open spec fn ordered_bytes(value: nat, width: nat, order: ByteOrder) -> Seq<u8> {
    in_order(le_bytes(value, width), order)
}

/// Behind its lowest byte a number holds the bytes of its 256th part.
pub proof fn lemma_le_bytes_skip(value: nat, width: nat)
    requires
        width > 0,
    ensures
        le_bytes(value, width).skip(1) == le_bytes(value / 256, (width - 1) as nat),
        le_bytes(value, width)[0] == (value % 256) as u8,
{
    let bytes = le_bytes(value, width);
    assert forall|i: int| 0 <= i < width - 1 implies bytes.skip(1)[i] == le_bytes(
        value / 256,
        (width - 1) as nat,
    )[i] by {
        lemma_pow256_monotonic(0, i as nat);
        vstd::arithmetic::div_mod::lemma_div_denominator(value as int, 256, pow256(i as nat) as int);
        assert(pow256((i + 1) as nat) == 256 * pow256(i as nat));
    }
    assert(bytes.skip(1) =~= le_bytes(value / 256, (width - 1) as nat));
    assert(pow256(0) == 1);
    assert(value / 1 == value);
}

/// The bytes of the number that a run of bytes denotes are that run.
pub proof fn lemma_le_bytes_of_le_value(bytes: Seq<u8>)
    ensures
        le_bytes(le_value(bytes), bytes.len()) == bytes,
    decreases bytes.len(),
{
    let value = le_value(bytes);
    if bytes.len() > 0 {
        let rest = le_value(bytes.skip(1));
        lemma_le_bytes_of_le_value(bytes.skip(1));
        lemma_le_bytes_skip(value, bytes.len());
        vstd::arithmetic::div_mod::lemma_fundamental_div_mod_converse_div(
            value as int,
            256,
            rest as int,
            bytes[0] as int,
        );
        vstd::arithmetic::div_mod::lemma_fundamental_div_mod_converse_mod(
            value as int,
            256,
            rest as int,
            bytes[0] as int,
        );
        let again = le_bytes(value, bytes.len());
        assert(again.skip(1) == bytes.skip(1));
        assert(again[0] == bytes[0]);
        assert forall|i: int| 0 <= i < bytes.len() implies again[i] == bytes[i] by {
            if i > 0 {
                assert(again.skip(1)[i - 1] == again[i]);
                assert(bytes.skip(1)[i - 1] == bytes[i]);
            }
        }
        assert(again =~= bytes);
    } else {
        assert(le_bytes(value, 0) =~= bytes);
    }
}

/// Bytes and numbers stand for each other in either order: the bytes of a
/// number that fits denote it, and the bytes of the number that a run
/// denotes are the run.
pub proof fn lemma_ordered_bytes(value: nat, bytes: Seq<u8>, width: nat, order: ByteOrder)
    ensures
        ordered_bytes(value, width, order).len() == width,
        value < pow256(width) ==> unsigned_value(ordered_bytes(value, width, order), order)
            == value,
        ordered_bytes(unsigned_value(bytes, order), bytes.len(), order) == bytes,
        unsigned_value(bytes, order) < pow256(bytes.len()),
{
    if value < pow256(width) {
        lemma_le_value_of_le_bytes(value, width);
    }
    match order {
        ByteOrder::LittleEndian => {
            lemma_le_bytes_of_le_value(bytes);
            lemma_le_value_bound(bytes);
        },
        ByteOrder::BigEndian => {
            lemma_be_value_reverse(le_bytes(value, width));
            lemma_be_value_reverse(bytes.reverse());
            assert(bytes.reverse().reverse() =~= bytes);
            lemma_le_bytes_of_le_value(bytes.reverse());
            lemma_le_value_bound(bytes.reverse());
        },
    }
}

/// Reads up to eight bytes as a number, highest byte first.
pub fn decode_be(bytes: &[u8]) -> (value: u64)
    requires
        bytes@.len() <= 8,
    ensures
        value == be_value(bytes@),
{
    let n: usize = bytes.len();
    let mut value: u64 = 0;
    let mut i: usize = 0;
    proof {
        assert(bytes@.take(0) =~= Seq::<u8>::empty());
        lemma_pow256_values();
    }
    while i < n
        invariant
            i <= n,
            n == bytes@.len(),
            n <= 8,
            value == be_value(bytes@.take(i as int)),
            value < pow256(i as nat),
        decreases n - i,
    {
        proof {
            assert(bytes@.take(i + 1).drop_last() =~= bytes@.take(i as int));
            assert(bytes@.take(i + 1).last() == bytes@[i as int]);
            lemma_pow256_values();
            lemma_pow256_monotonic((i + 1) as nat, 8);
        }
        value = value * 256 + bytes[i] as u64;
        i += 1;
    }
    assert(bytes@.take(n as int) =~= bytes@);
    value
}

/// Reads the `width` bytes of `source` from `from` on as an unsigned number
/// in the given byte order.
pub fn read_unsigned(source: &[u8], from: usize, width: usize, order: ByteOrder) -> (value: u64)
    requires
        width <= 8,
        from + width <= source@.len(),
    ensures
        value == unsigned_value(source@.subrange(from as int, from + width), order),
{
    assert(source.len() <= usize::MAX);
    let bytes = vstd::slice::slice_subrange(source, from, from + width);
    match order {
        ByteOrder::LittleEndian => decode_le(bytes),
        ByteOrder::BigEndian => decode_be(bytes),
    }
}

/// Writes `value` into the `width` bytes of `target` from `at` on, in the
/// given byte order.
pub fn write_unsigned(target: &mut [u8], at: usize, width: usize, value: u64, order: ByteOrder)
    requires
        width <= 8,
        at + width <= old(target)@.len(),
    ensures
        final(target)@ == old(target)@.subrange(0, at as int) + ordered_bytes(
            value as nat,
            width as nat,
            order,
        ) + old(target)@.subrange(at + width, old(target)@.len() as int),
{
    let target_len: usize = target.len();
    let ghost lowest_first = le_bytes(value as nat, width as nat);
    let mut rest: u64 = value;
    let mut k: usize = 0;
    assert(pow256(0) == 1);
    while k < width
        invariant
            k <= width,
            width <= 8,
            lowest_first == le_bytes(value as nat, width as nat),
            target@.len() == target_len,
            target_len == old(target)@.len(),
            at + width <= target_len,
            rest == value as nat / pow256(k as nat),
            forall|i: int|
                0 <= i < target_len && !(at <= i < at + width) ==> target@[i] == old(target)@[i],
            forall|j: int|
                0 <= j < k ==> target@[match order {
                    ByteOrder::LittleEndian => at + j,
                    ByteOrder::BigEndian => at + width - 1 - j,
                }] == #[trigger] lowest_first[j],
        decreases width - k,
    {
        let place: usize = match order {
            ByteOrder::LittleEndian => at + k,
            ByteOrder::BigEndian => at + (width - 1 - k),
        };
        proof {
            lemma_pow256_monotonic(0, k as nat);
            vstd::arithmetic::div_mod::lemma_div_denominator(
                value as int,
                pow256(k as nat) as int,
                256,
            );
            assert(pow256((k + 1) as nat) == pow256(k as nat) * 256) by (nonlinear_arith)
                requires
                    pow256((k + 1) as nat) == 256 * pow256(k as nat),
            ;
        }
        target[place] = (rest % 256) as u8;
        rest = rest / 256;
        k += 1;
    }
    proof {
        let wanted = ordered_bytes(value as nat, width as nat, order);
        let whole = old(target)@.subrange(0, at as int) + wanted + old(target)@.subrange(
            at + width,
            target_len as int,
        );
        assert forall|i: int| 0 <= i < target_len implies target@[i] == whole[i] by {
            if at <= i < at + width {
                match order {
                    ByteOrder::LittleEndian => {
                        assert(target@[at + (i - at)] == lowest_first[i - at]);
                    },
                    ByteOrder::BigEndian => {
                        let j = width - 1 - (i - at);
                        assert(target@[at + width - 1 - j] == lowest_first[j]);
                    },
                }
            }
        }
        assert(target@ =~= whole);
    }
}

/// `u16::to_ne_bytes` on the number one: the two bytes that this machine
/// keeps for it, of which the low byte stands first or last. Which of the
/// two is the machine's matter.
#[verifier::external_body]
fn native_bytes_of_one() -> (bytes: [u8; 2])
    ensures
        bytes@ == seq![1u8, 0u8] || bytes@ == seq![0u8, 1u8],
{
    1u16.to_ne_bytes()
}

/// The byte order in which two bytes hold the 16-bit number one: lowest byte
/// first where the first of them is the one, highest byte first otherwise.
pub open spec fn order_of_one(bytes: Seq<u8>) -> ByteOrder {
    if bytes[0] == 1 {
        ByteOrder::LittleEndian
    } else {
        ByteOrder::BigEndian
    }
}

/// The byte order in which `bytes_of_one` hold the 16-bit number one.
pub fn byte_order_of_one(bytes_of_one: [u8; 2]) -> (order: ByteOrder)
    ensures
        order == order_of_one(bytes_of_one@),
{
    if bytes_of_one[0] == 1 {
        ByteOrder::LittleEndian
    } else {
        ByteOrder::BigEndian
    }
}

/// The byte order of the machine that runs this code: the order in which it
/// holds the 16-bit number one. Which of the two orders that is, is the
/// machine's matter.
pub fn native_byte_order() -> ByteOrder {
    byte_order_of_one(native_bytes_of_one())
}

} // verus!
