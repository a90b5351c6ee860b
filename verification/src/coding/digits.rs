//! What numbers look like in bytes, digit by digit.
use crate::coding;
use crate::options;
use crate::table::TableFileRef;
use crate::wal;
use vstd::arithmetic::div_mod;
use vstd::arithmetic::power;
use vstd::prelude::*;

verus! {

/// The digit of a number that stands at a place, counted from the least one, in a base.
pub open spec fn digit(n: nat, base: nat, place: nat) -> int {
    (n as int / power::pow(base as int, place)) % (base as int)
}

/// The digits of a number but the least one are those of what is left without it.
proof fn lemma_next_digit(n: nat, base: nat, place: nat)
    requires
        base > 1,
    ensures
        digit(n / base, base, place) == digit(n, base, place + 1),
        digit(n, base, 0) == n % base,
{
    reveal(power::pow);
    power::lemma_pow_positive(base as int, place);
    div_mod::lemma_div_denominator(n as int, base as int, power::pow(base as int, place));
}

/// Each byte of a number in its fixed form is a digit of it to the base 256, the least one first.
pub proof fn lemma_le_bytes_digits(n: nat, len: nat, i: int)
    requires
        0 <= i < len,
    ensures
        coding::le_bytes(n, len).len() == len,
        coding::le_bytes(n, len)[i] == digit(n, 256, i as nat),
    decreases len,
{
    coding::lemma_le_bytes_len(n, len);
    coding::lemma_le_bytes_len(n / 256, (len - 1) as nat);
    if i > 0 {
        lemma_le_bytes_digits(n / 256, (len - 1) as nat, i - 1);
        lemma_next_digit(n, 256, (i - 1) as nat);
    } else {
        lemma_next_digit(n, 256, 0);
    }
}

/// Each byte of a number in its variable form is a digit of it to the base 128, the least one
/// first, with 128 added in all but the last, and there are no more of them than the number needs.
pub proof fn lemma_varint_digits(n: nat, i: int)
    requires
        0 <= i < coding::varint(n).len(),
    ensures
        coding::varint(n)[i] == digit(n, 128, i as nat) + if i < coding::varint(n).len() - 1 {
            128int
        } else {
            0
        },
        n > 0 ==> coding::varint(n).last() > 0,
        n == 0 ==> coding::varint(n).len() == 1,
    decreases n,
{
    lemma_next_digit(n, 128, 0);
    if n >= 128 {
        coding::lemma_read_varint_of_varint(n / 128, Seq::empty());
        let rest = coding::varint(n / 128);
        if i > 0 {
            lemma_varint_digits(n / 128, i - 1);
            lemma_next_digit(n, 128, (i - 1) as nat);
        } else {
            lemma_varint_digits(n / 128, 0);
        }
        assert(coding::varint(n).last() == rest.last());
    }
}

/// A byte string stands behind its length, which takes eight bytes.
pub proof fn lemma_bytes_layout(b: Seq<u8>, i: int)
    ensures
        coding::bytes_encoding(b).len() == b.len() + 8,
        0 <= i < 8 ==> coding::bytes_encoding(b)[i] == digit(b.len(), 256, i as nat),
        8 <= i < b.len() + 8 ==> coding::bytes_encoding(b)[i] == b[i - 8],
{
    coding::lemma_le_bytes_len(b.len(), 8);
    if 0 <= i < 8 {
        lemma_le_bytes_digits(b.len(), 8, i);
    }
}

/// The digits of a number in decimal stand with the least one last, and none of them is a zero in
/// front.
pub proof fn lemma_decimal_digits(n: nat, place: nat)
    ensures
        place < options::decimal(n).len() ==> options::decimal(n)[options::decimal(n).len() - 1
            - place] == 48 + digit(n, 10, place),
        options::decimal(n).len() >= 1,
        n < power::pow(10, options::decimal(n).len()),
        options::decimal(n).len() > 1 ==> n >= power::pow(10, (options::decimal(n).len() - 1) as nat),
    decreases n,
{
    reveal(power::pow);
    power::lemma_pow1(10);
    lemma_next_digit(n, 10, 0);
    if n >= 10 {
        let rest = options::decimal(n / 10);
        let len = rest.len();
        lemma_decimal_digits(n / 10, if place > 0 {
            (place - 1) as nat
        } else {
            0
        });
        if place > 0 {
            lemma_next_digit(n, 10, (place - 1) as nat);
        }
        assert(power::pow(10, len + 1) == 10 * power::pow(10, len));
        if len > 1 {
            assert(power::pow(10, len) == 10 * power::pow(10, (len - 1) as nat));
        }
    }
}

/// A number that is filled up to a width has at least so many digits, zeros in front, and the same
/// digits behind them.
pub proof fn lemma_padded_digits(n: nat, width: nat, place: nat)
    requires
        n < power::pow(10, width),
        place < width,
    ensures
        options::padded(n, width).len() == width,
        options::padded(n, width)[width - 1 - place] == 48 + digit(n, 10, place),
{
    let digits = options::decimal(n);
    let len = digits.len();
    lemma_decimal_digits(n, place);
    if len > width {
        power::lemma_pow_increases(10, width, (len - 1) as nat);
        assert(false);
    }
    if place >= len {
        power::lemma_pow_increases(10, len, place);
        power::lemma_pow_positive(10, place);
        div_mod::lemma_basic_div(n as int, power::pow(10, place));
        assert(digit(n, 10, place) == 0);
    }
}

/// The name of a table file: three digits of the level, ten of the number, and `.sst`.
pub proof fn lemma_table_name(file_ref: TableFileRef, place: nat)
    requires
        file_ref.0 < 1000,
        file_ref.1 < 10_000_000_000,
    ensures
        ({
            let name = options::table_name(file_ref);
            &&& name.len() == 17
            &&& place < 3 ==> name[2 - place] == 48 + digit(file_ref.0 as nat, 10, place)
            &&& place < 10 ==> name[12 - place] == 48 + digit(file_ref.1 as nat, 10, place)
            &&& name[13] == 0x2e && name[14] == 0x73 && name[15] == 0x73 && name[16] == 0x74
        }),
{
    assert(power::pow(10, 3) == 1000 && power::pow(10, 10) == 10_000_000_000) by {
        reveal_with_fuel(power::pow, 11);
    }
    lemma_padded_digits(file_ref.0 as nat, 3, if place < 3 {
        place
    } else {
        0
    });
    lemma_padded_digits(file_ref.1 as nat, 10, if place < 10 {
        place
    } else {
        0
    });
}

/// The hexadecimal digits of a number stand with the least one last, in upper case.
pub proof fn lemma_hex_digits_at(v: nat, n: nat, place: nat)
    requires
        place < n,
    ensures
        wal::hex_digits(v, n).len() == n,
        ({
            let d = digit(v, 16, place);
            wal::hex_digits(v, n)[n - 1 - place] == if d < 10 {
                48 + d
            } else {
                65 + d - 10
            }
        }),
    decreases n,
{
    lemma_next_digit(v, 16, 0);
    lemma_hex_len(v / 16, (n - 1) as nat);
    if place > 0 {
        lemma_hex_digits_at(v / 16, (n - 1) as nat, (place - 1) as nat);
        lemma_next_digit(v, 16, (place - 1) as nat);
    }
}

proof fn lemma_hex_len(v: nat, n: nat)
    ensures
        wal::hex_digits(v, n).len() == n,
    decreases n,
{
    if n > 0 {
        lemma_hex_len(v / 16, (n - 1) as nat);
    }
}

/// The value of a character among hexadecimal digits: 0 to 9, A to F and a to f, and no other.
pub open spec fn hex_char(b: u8) -> Option<int> {
    if 48 <= b < 58 {
        Some(b - 48)
    } else if 65 <= b < 71 {
        Some(b - 55)
    } else if 97 <= b < 103 {
        Some(b - 87)
    } else {
        None
    }
}

/// A string of hexadecimal digits is read with the least one last. One with another character is
/// refused.
pub proof fn lemma_hex_value(s: Seq<u8>, place: nat)
    requires
        place < s.len(),
    ensures
        match wal::hex_value(s) {
            Some(v) => {
                &&& hex_char(s[s.len() - 1 - place]) == Some(digit(v, 16, place))
                &&& v < power::pow(16, s.len())
            },
            None => exists|i: int| 0 <= i < s.len() && hex_char(#[trigger] s[i]) is None,
        },
    decreases s.len(),
{
    reveal(power::pow);
    let init = s.drop_last();
    let last = s.len() - 1;
    let d = wal::hex_digit(s[last]);
    assert(s[last] == s.last());
    assert(d is Some <==> hex_char(s[last]) is Some);
    assert(d matches Some(n) ==> hex_char(s[last]) == Some(n as int) && n < 16);
    if init.len() > 0 {
        lemma_hex_value(init, if place > 0 {
            (place - 1) as nat
        } else {
            0
        });
    } else {
        power::lemma_pow0(16);
    }
    match wal::hex_value(init) {
        Some(v) => {
            if let Some(n) = d {
                let all = v * 16 + n;
                assert(all / 16 == v && all % 16 == n);
                lemma_next_digit(all, 16, 0);
                if place > 0 {
                    lemma_next_digit(all, 16, (place - 1) as nat);
                    assert(init[init.len() - 1 - (place - 1)] == s[s.len() - 1 - place]);
                }
                assert(power::pow(16, s.len()) == 16 * power::pow(16, init.len()));
            }
        },
        None => {
            let i = choose|i: int| 0 <= i < init.len() && hex_char(#[trigger] init[i]) is None;
            assert(s[i] == init[i]);
        },
    }
}

/// A name stands for the number of its hexadecimal digits, with or without a plus sign in front,
/// if there is one and the number fits in 32 bits.
pub proof fn lemma_segno_of(digits: Seq<u8>)
    requires
        digits.len() > 0,
        digits[0] != 0x2b,
    ensures
        wal::segno_of(digits) == match wal::hex_value(digits) {
            Some(v) => if v < 0x1_0000_0000 {
                Some(v)
            } else {
                None
            },
            None => None,
        },
        wal::segno_of(seq![0x2bu8] + digits) == wal::segno_of(digits),
        wal::segno_of(Seq::empty()) is None,
        wal::segno_of(seq![0x2bu8]) is None,
{
    assert((seq![0x2bu8] + digits).drop_first() =~= digits);
    assert(seq![0x2bu8].drop_first() =~= Seq::empty());
}

/// The last segment is the one with the greatest number that a name stands for, if all names do
/// stand for numbers, and none is zero.
pub proof fn lemma_greatest_segno(names: Seq<String>, i: int)
    requires
        0 <= i < names.len(),
    ensures
        match wal::greatest_segno(names) {
            Some(m) => {
                &&& wal::segno_of(vstd::utf8::encode_utf8(names[i]@)) matches Some(n) && n <= m
                &&& m > 0 ==> exists|j: int|
                    0 <= j < names.len() && wal::segno_of(
                        vstd::utf8::encode_utf8((#[trigger] names[j])@),
                    ) == Some(m)
            },
            None => exists|j: int|
                0 <= j < names.len() && wal::segno_of(
                    vstd::utf8::encode_utf8((#[trigger] names[j])@),
                ) is None,
        },
    decreases names.len(),
{
    let init = names.drop_last();
    let last = names.len() - 1;
    let own = wal::segno_of(vstd::utf8::encode_utf8(names[last]@));
    if init.len() > 0 {
        lemma_greatest_segno(init, if i < last {
            i
        } else {
            0
        });
        match wal::greatest_segno(init) {
            Some(m) => {
                if m > 0 {
                    let j = choose|j: int|
                        0 <= j < init.len() && wal::segno_of(
                            vstd::utf8::encode_utf8((#[trigger] init[j])@),
                        ) == Some(m);
                    assert(names[j] == init[j]);
                }
            },
            None => {
                let j = choose|j: int|
                    0 <= j < init.len() && wal::segno_of(
                        vstd::utf8::encode_utf8((#[trigger] init[j])@),
                    ) is None;
                assert(names[j] == init[j]);
            },
        }
    }
    assert(names[last] == names.last());
    if own is Some && i < last {
        assert(init[i] == names[i]);
    }
}

} // verus!
