use crate::utils::{is_log2_floor, log2u64};
use vstd::arithmetic::power2::*;
use vstd::bits::*;
use vstd::prelude::*;
use vstd::string::*;

verus! {

/// The lowercase hexadecimal digit of a value below sixteen.
pub open spec fn hex_digit(n: int) -> char {
    if n < 10 {
        ((48 + n) as u8) as char
    } else {
        ((87 + n) as u8) as char
    }
}

/// A byte in lowercase hexadecimal without zero padding: one digit below
/// sixteen, two digits from sixteen on.
pub open spec fn hex_byte(b: int) -> Seq<char> {
    if b < 16 {
        seq![hex_digit(b)]
    } else {
        seq![hex_digit(b / 16), hex_digit(b % 16)]
    }
}

/// The bytes of `c` from the most significant one down, each in hexadecimal,
/// separated by `/`. Zero is written as the single byte `0`.
pub open spec fn path_stem(c: nat) -> Seq<char>
    decreases c,
{
    if c < 256 {
        hex_byte(c as int)
    } else {
        path_stem(c / 256) + seq!['/'] + hex_byte((c % 256) as int)
    }
}

/// The relative path that belongs to the counter value `c`: a directory for
/// each byte but the least significant one, which names the file.
pub open spec fn path_of(c: nat) -> Seq<char> {
    path_stem(c) + seq!['.', 'b', 'i', 'n']
}

/// A hexadecimal digit is neither the separator nor the dot, and tells its
/// value.
pub proof fn lemma_hex_digit(m: int, n: int)
    requires
        0 <= m < 16,
        0 <= n < 16,
    ensures
        hex_digit(m) != '/',
        hex_digit(m) != '.',
        hex_digit(m) == hex_digit(n) ==> m == n,
{
}

/// A stem is never empty and ends in the low digit of its counter.
pub proof fn lemma_stem_last(c: nat)
    ensures
        path_stem(c).len() >= 1,
        path_stem(c).last() == hex_digit((c % 16) as int),
        c % 256 >= 16 ==> path_stem(c).len() >= 2 && path_stem(c)[path_stem(c).len() - 2]
            == hex_digit(((c % 256) / 16) as int),
        c % 256 < 16 && c >= 256 ==> path_stem(c).len() >= 2 && path_stem(c)[path_stem(c).len()
            - 2] == '/',
        c < 16 ==> path_stem(c).len() == 1,
    decreases c,
{
    let low = (c % 256) as int;
    assert(low % 16 == c % 16) by (nonlinear_arith)
        requires
            low == c % 256,
    ;
    if c >= 256 {
        lemma_stem_last(c / 256);
    }
}

/// Two counters with the same stem are the same counter.
pub proof fn lemma_stem_injective(a: nat, b: nat)
    requires
        path_stem(a) == path_stem(b),
    ensures
        a == b,
    decreases a,
{
    let sa = path_stem(a);
    let sb = path_stem(b);
    let la = (a % 256) as int;
    let lb = (b % 256) as int;
    lemma_stem_last(a);
    lemma_stem_last(b);
    lemma_hex_digit((a % 16) as int, (b % 16) as int);
    assert(a % 16 == b % 16);
    assert(la % 16 == a % 16 && lb % 16 == b % 16) by (nonlinear_arith)
        requires
            la == a % 256,
            lb == b % 256,
    ;
    // the digit before the last one tells whether the low byte has two digits
    if la >= 16 {
        lemma_hex_digit(la / 16, 0);
        if lb < 16 {
            if b >= 256 {
                assert(false);
            } else {
                assert(sb.len() == 1);
                assert(false);
            }
        }
        lemma_hex_digit(la / 16, lb / 16);
        assert(la / 16 == lb / 16);
        assert(la == lb);
    } else {
        if lb >= 16 {
            lemma_hex_digit(lb / 16, 0);
            if a >= 256 {
                assert(false);
            } else {
                assert(sa.len() == 1);
                assert(false);
            }
        }
        assert(la == lb);
    }
    let tail = hex_byte(la);
    if a < 256 {
        assert(sa.len() == tail.len());
        if b >= 256 {
            lemma_stem_last(b / 256);
            assert(sb.len() == path_stem(b / 256).len() + 1 + tail.len());
            assert(false);
        }
    } else {
        if b < 256 {
            lemma_stem_last(a / 256);
            assert(sa.len() == path_stem(a / 256).len() + 1 + tail.len());
            assert(false);
        }
        let pa = path_stem(a / 256);
        let pb = path_stem(b / 256);
        assert(sa == pa + seq!['/'] + tail);
        assert(sb == pb + seq!['/'] + tail);
        assert(pa.len() == pb.len());
        assert(pa =~= sa.subrange(0, pa.len() as int));
        assert(pb =~= sb.subrange(0, pb.len() as int));
        lemma_stem_injective(a / 256, b / 256);
    }
}

/// Distinct counters have distinct paths.
pub proof fn lemma_path_injective(a: nat, b: nat)
    requires
        path_of(a) == path_of(b),
    ensures
        a == b,
{
    let ext = seq!['.', 'b', 'i', 'n'];
    let sa = path_stem(a);
    let sb = path_stem(b);
    assert(path_of(a).len() == sa.len() + 4);
    assert(path_of(b).len() == sb.len() + 4);
    assert(sa =~= path_of(a).subrange(0, sa.len() as int));
    assert(sb =~= path_of(b).subrange(0, sb.len() as int));
    lemma_stem_injective(a, b);
}

/// The text of one hexadecimal digit.
fn hex_digit_str(n: u8) -> (s: &'static str)
    requires
        n < 16,
    ensures
        s@ == seq![hex_digit(n as int)],
{
    proof {
        reveal_strlit("0");
        reveal_strlit("1");
        reveal_strlit("2");
        reveal_strlit("3");
        reveal_strlit("4");
        reveal_strlit("5");
        reveal_strlit("6");
        reveal_strlit("7");
        reveal_strlit("8");
        reveal_strlit("9");
        reveal_strlit("a");
        reveal_strlit("b");
        reveal_strlit("c");
        reveal_strlit("d");
        reveal_strlit("e");
        reveal_strlit("f");
    }
    let s = match n {
        0 => "0",
        1 => "1",
        2 => "2",
        3 => "3",
        4 => "4",
        5 => "5",
        6 => "6",
        7 => "7",
        8 => "8",
        9 => "9",
        10 => "a",
        11 => "b",
        12 => "c",
        13 => "d",
        14 => "e",
        _ => "f",
    };
    assert(s@ =~= seq![hex_digit(n as int)]);
    s
}

/// Appends a byte in hexadecimal, without zero padding.
fn push_hex_byte(name: &mut String, b: u8)
    ensures
        final(name)@ == old(name)@ + hex_byte(b as int),
{
    if b >= 16 {
        name.append(hex_digit_str(b / 16));
    }
    name.append(hex_digit_str(b % 16));
    assert(final(name)@ =~= old(name)@ + hex_byte(b as int));
}

/// The byte of `c` at position `i`, counted from the least significant one.
fn byte_at(c: u64, i: u64) -> (b: u8)
    requires
        i < 8,
    ensures
        b as nat == (c as nat / pow2(8 * i as nat)) % 256,
{
    let shift: u64 = 8 * i;
    let shifted: u64 = c >> shift;
    let low: u64 = shifted & 0xff;
    proof {
        lemma_u64_shr_is_div(c, shift);
        assert(shifted & 0xff == shifted % 256) by (bit_vector);
    }
    low as u8
}

/// The highest byte of `c` that is not zero stands at position `k / 8`,
/// where `k` is the position of the highest set bit.
proof fn lemma_top_byte(c: u64, k: u64)
    requires
        is_log2_floor(c, k),
    ensures
        k / 8 < 8,
        1 <= c as nat / pow2(8 * (k / 8) as nat) < 256,
{
    let top = (k / 8) as nat;
    let d = pow2(8 * top);
    lemma_pow2_pos(8 * top);
    if 8 * top < k {
        lemma_pow2_strictly_increases(8 * top, k as nat);
    }
    lemma_pow2_unfold(k as nat + 1);
    if k + 1 < 8 * top + 8 {
        lemma_pow2_strictly_increases(k as nat + 1, 8 * top + 8);
    }
    lemma_pow2_adds(8 * top, 8);
    lemma2_to64();
    assert(c < d * 256);
    assert(d <= c);
    assert(1 <= c as nat / d < 256) by (nonlinear_arith)
        requires
            0 < d <= c,
            c < d * 256,
    ;
}

/// Dropping one more byte of `c` divides by 256 once more.
proof fn lemma_stem_step(c: nat, i: nat)
    ensures
        (c / pow2(8 * i)) / 256 == c / pow2(8 * (i + 1)),
{
    lemma_pow2_pos(8 * i);
    lemma_pow2_adds(8 * i, 8);
    lemma2_to64();
    vstd::arithmetic::div_mod::lemma_div_denominator(c as int, pow2(8 * i) as int, 256);
}

/// Writes the path of the counter value `c`.
pub fn path_name(c: u64) -> (name: String)
    ensures
        name@ == path_of(c as nat),
{
    let mut name = String::new();
    let top: u64 = match log2u64(c) {
        Some(k) => {
            proof {
                lemma_top_byte(c, k);
            }
            k / 8
        },
        None => {
            proof {
                lemma2_to64();
                let d = pow2(0);
                assert(c as nat / d == 0) by (nonlinear_arith)
                    requires
                        c == 0,
                        d == 1,
                ;
            }
            0
        },
    };
    let mut i: u64 = top;
    // the byte at `top` is written first: it has nothing above it
    push_hex_byte(&mut name, byte_at(c, i));
    assert(name@ =~= path_stem(c as nat / pow2(8 * i as nat)));
    while i > 0
        invariant
            i <= top < 8,
            i > 0 ==> 1 <= c as nat / pow2(8 * i as nat),
            name@ == path_stem(c as nat / pow2(8 * i as nat)),
        decreases i,
    {
        i = i - 1;
        proof {
            reveal_strlit("/");
            lemma_stem_step(c as nat, i as nat);
        }
        name.append("/");
        push_hex_byte(&mut name, byte_at(c, i));
    }
    proof {
        reveal_strlit(".bin");
        lemma2_to64();
        let d = pow2(8 * i as nat);
        assert(c as nat / d == c as nat) by (nonlinear_arith)
            requires
                d == 1,
        ;
        assert(".bin"@ =~= seq!['.', 'b', 'i', 'n']);
    }
    name.append(".bin");
    name
}

} // verus!
