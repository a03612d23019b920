//! Small helpers: big-endian integer reads and hex-string conversions.

use vstd::prelude::*;
use vstd::string::StrSliceExecFns;

verus! {

/// The big-endian value of two bytes.
pub open spec fn be16(a: u8, b: u8) -> int {
    a * 256 + b
}

/// The big-endian value of four bytes.
pub open spec fn be32(a: u8, b: u8, c: u8, d: u8) -> int {
    ((a * 256 + b) * 256 + c) * 256 + d
}

/// Whether two byte strings hold the same bytes.
pub fn bytes_equal(a: &Vec<u8>, b: &Vec<u8>) -> (r: bool)
    ensures
        r == (a@ == b@),
{
    if a.len() != b.len() {
        proof {
            assert(a@ != b@);
        }
        return false;
    }
    let mut i: usize = 0;
    while i < a.len()
        invariant
            i <= a.len(),
            a@.len() == b@.len(),
            forall|j: int| 0 <= j < i ==> a@[j] == b@[j],
        decreases a.len() - i,
    {
        if a[i] != b[i] {
            return false;
        }
        i = i + 1;
    }
    proof {
        assert(a@ =~= b@);
    }
    true
}

/// Reads a big-endian `u16` from the front of a byte slice.
pub fn to_u16(bytes: &[u8]) -> (r: Result<u16, ()>)
    ensures
        r is Ok <==> bytes@.len() >= 2,
        r matches Ok(v) ==> v == be16(bytes@[0], bytes@[1]),
{
    if bytes.len() >= 2 {
        Ok((bytes[0] as u16) * 256 + (bytes[1] as u16))
    } else {
        Err(())
    }
}

/// Reads a big-endian `u32` from the front of a byte slice.
pub fn to_u32(bytes: &[u8]) -> (r: Result<u32, ()>)
    ensures
        r is Ok <==> bytes@.len() >= 4,
        r matches Ok(v) ==> v == be32(bytes@[0], bytes@[1], bytes@[2], bytes@[3]),
{
    if bytes.len() >= 4 {
        Ok(
            (((bytes[0] as u32) * 256 + (bytes[1] as u32)) * 256 + (bytes[2] as u32)) * 256
                + (bytes[3] as u32),
        )
    } else {
        Err(())
    }
}

/// The lower-case hex digit for a value below sixteen.
pub open spec fn hex_digit_char(n: int) -> char {
    if n == 0 {
        '0'
    } else if n == 1 {
        '1'
    } else if n == 2 {
        '2'
    } else if n == 3 {
        '3'
    } else if n == 4 {
        '4'
    } else if n == 5 {
        '5'
    } else if n == 6 {
        '6'
    } else if n == 7 {
        '7'
    } else if n == 8 {
        '8'
    } else if n == 9 {
        '9'
    } else if n == 10 {
        'a'
    } else if n == 11 {
        'b'
    } else if n == 12 {
        'c'
    } else if n == 13 {
        'd'
    } else if n == 14 {
        'e'
    } else {
        'f'
    }
}

/// Bytes rendered as two-digit lower-case hex pairs joined by single spaces.
pub open spec fn hex_str_of(bytes: Seq<u8>) -> Seq<char>
    decreases bytes.len(),
{
    if bytes.len() == 0 {
        Seq::empty()
    } else {
        let pair = seq![
            hex_digit_char((bytes.last() / 16) as int),
            hex_digit_char((bytes.last() % 16) as int),
        ];
        if bytes.len() == 1 {
            pair
        } else {
            hex_str_of(bytes.drop_last()) + seq![' '] + pair
        }
    }
}

/// The one-character string for a hex digit value.
fn hex_digit_str(n: u8) -> (r: &'static str)
    requires
        n < 16,
    ensures
        r@ == seq![hex_digit_char(n as int)],
{
    proof {
        reveal_strlit("0");
        reveal_strlit("1");
        reveal_strlit("2");
        reveal_strlit("3");
        reveal_strlit("4");
        reveal_strlit("5");
        reveal_strlit("6");
        reveal_strlit("7");
        reveal_strlit("8");
        reveal_strlit("9");
        reveal_strlit("a");
        reveal_strlit("b");
        reveal_strlit("c");
        reveal_strlit("d");
        reveal_strlit("e");
        reveal_strlit("f");
    }
    let r: &'static str = if n == 0 {
        "0"
    } else if n == 1 {
        "1"
    } else if n == 2 {
        "2"
    } else if n == 3 {
        "3"
    } else if n == 4 {
        "4"
    } else if n == 5 {
        "5"
    } else if n == 6 {
        "6"
    } else if n == 7 {
        "7"
    } else if n == 8 {
        "8"
    } else if n == 9 {
        "9"
    } else if n == 10 {
        "a"
    } else if n == 11 {
        "b"
    } else if n == 12 {
        "c"
    } else if n == 13 {
        "d"
    } else if n == 14 {
        "e"
    } else {
        "f"
    };
    proof {
        assert(r@ =~= seq![hex_digit_char(n as int)]);
    }
    r
}

/// Renders bytes as space-separated two-digit lower-case hex pairs.
pub fn u8s_to_hex_str(bytes: &[u8]) -> (r: String)
    ensures
        r@ == hex_str_of(bytes@),
{
    let ghost space: Seq<char> = seq![' '];
    proof {
        reveal_strlit(" ");
        assert(" "@ =~= space);
    }
    let mut out = String::new();
    let mut i: usize = 0;
    while i < bytes.len()
        invariant
            i <= bytes.len(),
            out@ == hex_str_of(bytes@.subrange(0, i as int)),
            space == seq![' '],
            " "@ == space,
        decreases bytes.len() - i,
    {
        if i > 0 {
            out.append(" ");
        }
        out.append(hex_digit_str(bytes[i] / 16));
        out.append(hex_digit_str(bytes[i] % 16));
        proof {
            let sub1 = bytes@.subrange(0, i as int + 1);
            assert(sub1.drop_last() =~= bytes@.subrange(0, i as int));
            assert(sub1.last() == bytes@[i as int]);
            if i == 0 {
                assert(out@ =~= hex_str_of(sub1));
            } else {
                assert(out@ =~= hex_str_of(sub1));
            }
        }
        i = i + 1;
    }
    proof {
        assert(bytes@.subrange(0, bytes@.len() as int) =~= bytes@);
    }
    out
}

/// Whether a character is an ASCII hex digit.
pub open spec fn is_hex_digit_char(c: char) -> bool {
    let u = c as u32;
    (48 <= u && u <= 57) || (97 <= u && u <= 102) || (65 <= u && u <= 70)
}

/// The value of a hex digit character; zero for any other character.
pub open spec fn hex_val(c: char) -> int {
    let u = c as u32;
    if 48 <= u && u <= 57 {
        u - 48
    } else if 97 <= u && u <= 102 {
        u - 87
    } else if 65 <= u && u <= 70 {
        u - 55
    } else {
        0
    }
}

/// The hex digit characters of a string, other characters dropped.
pub open spec fn hex_digits_of(s: Seq<char>) -> Seq<char>
    decreases s.len(),
{
    if s.len() == 0 {
        Seq::empty()
    } else {
        hex_digits_of(s.drop_last()) + (if is_hex_digit_char(s.last()) {
            seq![s.last()]
        } else {
            Seq::<char>::empty()
        })
    }
}

/// The bytes encoded by an even-length run of hex digits, two digits each.
pub open spec fn bytes_of_hex_digits(digits: Seq<char>) -> Seq<u8> {
    Seq::new(
        (digits.len() / 2) as nat,
        |i: int| (hex_val(digits[2 * i]) * 16 + hex_val(digits[2 * i + 1])) as u8,
    )
}

/// The value of a hex digit character, executable.
fn hex_val_of(c: char) -> (r: u8)
    ensures
        r == hex_val(c),
        r < 16,
{
    let u = c as u32;
    if 48 <= u && u <= 57 {
        (u - 48) as u8
    } else if 97 <= u && u <= 102 {
        (u - 87) as u8
    } else if 65 <= u && u <= 70 {
        (u - 55) as u8
    } else {
        0
    }
}

/// Reads bytes out of a string of hex digit pairs. Characters that are not
/// hex digits are skipped; an odd number of digits is an error.
pub fn hex_str_to_u8s(hex: &str) -> (r: Result<Vec<u8>, ()>)
    ensures
        r is Ok <==> hex_digits_of(hex@).len() % 2 == 0,
        r matches Ok(v) ==> v@ == bytes_of_hex_digits(hex_digits_of(hex@)),
{
    let n = hex.unicode_len();
    let mut digits: Vec<char> = Vec::new();
    let mut i: usize = 0;
    while i < n
        invariant
            i <= n,
            n == hex@.len(),
            digits@ == hex_digits_of(hex@.subrange(0, i as int)),
        decreases n - i,
    {
        let c = hex.get_char(i);
        let u = c as u32;
        if (48 <= u && u <= 57) || (97 <= u && u <= 102) || (65 <= u && u <= 70) {
            digits.push(c);
        }
        proof {
            let sub1 = hex@.subrange(0, i as int + 1);
            assert(sub1.drop_last() =~= hex@.subrange(0, i as int));
            assert(sub1.last() == hex@[i as int]);
            assert(digits@ =~= hex_digits_of(sub1));
        }
        i = i + 1;
    }
    proof {
        assert(hex@.subrange(0, hex@.len() as int) =~= hex@);
    }
    if digits.len() % 2 != 0 {
        return Err(());
    }
    let ghost target = bytes_of_hex_digits(digits@);
    let count = digits.len() / 2;
    let mut out: Vec<u8> = Vec::new();
    let mut k: usize = 0;
    while k < count
        invariant
            k <= count,
            count == digits@.len() / 2,
            digits@.len() % 2 == 0,
            digits@.len() <= usize::MAX,
            target == bytes_of_hex_digits(digits@),
            out@ =~= target.subrange(0, k as int),
        decreases count - k,
    {
        let hi = hex_val_of(digits[2 * k]);
        let lo = hex_val_of(digits[2 * k + 1]);
        out.push(hi * 16 + lo);
        proof {
            assert(out@ =~= target.subrange(0, k as int + 1));
        }
        k = k + 1;
    }
    proof {
        assert(out@ =~= target);
    }
    Ok(out)
}

} // verus!
