use vstd::prelude::*;

verus! {

/// Why a seed file was rejected.
#[derive(Debug, PartialEq, Eq, Clone, Copy, Structural)]
pub enum SeedError {
    /// A non-blank line holds no comma.
    MissingComma,
    /// An address is not a hexadecimal number that fits in 64 bits.
    InvalidAddress,
    /// An address lies below the base of its text section.
    BeforeBase,
}

/// ASCII whitespace: space, and tab through carriage return.
pub open spec fn is_space(b: u8) -> bool {
    b == 0x20 || (0x09 <= b && b <= 0x0D)
}

/// `s` without its leading whitespace.
pub open spec fn trim_start(s: Seq<u8>) -> Seq<u8>
    decreases s.len(),
{
    if s.len() > 0 && is_space(s[0]) {
        trim_start(s.drop_first())
    } else {
        s
    }
}

/// `s` without its trailing whitespace.
pub open spec fn trim_end(s: Seq<u8>) -> Seq<u8>
    decreases s.len(),
{
    if s.len() > 0 && is_space(s.last()) {
        trim_end(s.drop_last())
    } else {
        s
    }
}

/// `s` without leading and trailing whitespace.
pub open spec fn trim(s: Seq<u8>) -> Seq<u8> {
    trim_end(trim_start(s))
}

/// The value of a hexadecimal digit, either case; -1 for any other byte.
pub open spec fn hex_val(b: u8) -> int {
    if 0x30 <= b && b <= 0x39 {
        b - 0x30
    } else if 0x41 <= b && b <= 0x46 {
        b - 0x41 + 10
    } else if 0x61 <= b && b <= 0x66 {
        b - 0x61 + 10
    } else {
        -1
    }
}

/// Whether every byte is a hexadecimal digit.
pub open spec fn all_hex(s: Seq<u8>) -> bool {
    forall|i: int| 0 <= i < s.len() ==> hex_val(#[trigger] s[i]) >= 0
}

/// The number that the hexadecimal digits `s` stand for.
pub open spec fn hex_value(s: Seq<u8>) -> nat
    decreases s.len(),
{
    if s.len() == 0 {
        0
    } else {
        hex_value(s.drop_last()) * 16 + hex_val(s.last()) as nat
    }
}

/// A 64-bit address in hexadecimal: an optional `+`, then at least one digit, with a value
/// that fits in 64 bits.
pub open spec fn parse_hex(s: Seq<u8>) -> Option<u64> {
    let d = if s.len() > 0 && s[0] == 0x2B {
        s.drop_first()
    } else {
        s
    };
    if d.len() > 0 && all_hex(d) && hex_value(d) <= u64::MAX {
        Some(hex_value(d) as u64)
    } else {
        None
    }
}

/// The position of the first comma of `s` from `i` on, or -1.
pub open spec fn comma_from(s: Seq<u8>, i: int) -> int
    decreases s.len() - i,
{
    if i < 0 || i >= s.len() {
        -1
    } else if s[i] == 0x2C {
        i
    } else {
        comma_from(s, i + 1)
    }
}

/// The position of the first newline of `s` from `i` on, or the length of `s`.
pub open spec fn line_end(s: Seq<u8>, i: int) -> int
    decreases s.len() - i,
{
    if i < 0 || i >= s.len() {
        s.len() as int
    } else if s[i] == 0x0A {
        i
    } else {
        line_end(s, i + 1)
    }
}

/// One address of a seed line, made relative to `base`.
pub open spec fn parse_address(s: Seq<u8>, base: u64) -> Result<u64, SeedError> {
    match parse_hex(trim(s)) {
        None => Err(SeedError::InvalidAddress),
        Some(v) => if v < base {
            Err(SeedError::BeforeBase)
        } else {
            Ok((v - base) as u64)
        },
    }
}

/// One line of a seed file: `None` for a blank line, else the pair of relative addresses
/// written `<lhs>, <rhs>` in hexadecimal, or the first error.
pub open spec fn parse_line(line: Seq<u8>, lb: u64, rb: u64) -> Option<Result<(u64, u64), SeedError>> {
    let t = trim(line);
    if t.len() == 0 {
        None
    } else {
        let c = comma_from(t, 0);
        if c < 0 {
            Some(Err(SeedError::MissingComma))
        } else {
            match parse_address(t.subrange(0, c), lb) {
                Err(e) => Some(Err(e)),
                Ok(l) => match parse_address(t.subrange(c + 1, t.len() as int), rb) {
                    Err(e) => Some(Err(e)),
                    Ok(r) => Some(Ok((l, r))),
                },
            }
        }
    }
}

/// The seeds of the lines of `text` from position `i` on, or the first error.
pub open spec fn parse_from(text: Seq<u8>, i: int, lb: u64, rb: u64) -> Result<Seq<(u64, u64)>, SeedError>
    decreases text.len() + 1 - i,
{
    let e = line_end(text, i);
    if i < 0 || i > text.len() || e < i || e > text.len() {
        Ok(Seq::empty())
    } else {
        match parse_line(text.subrange(i, e), lb, rb) {
            None => parse_from(text, e + 1, lb, rb),
            Some(Err(err)) => Err(err),
            Some(Ok(p)) => match parse_from(text, e + 1, lb, rb) {
                Ok(rest) => Ok(seq![p] + rest),
                Err(err) => Err(err),
            },
        }
    }
}

proof fn lemma_line_end(s: Seq<u8>, i: int)
    requires
        0 <= i <= s.len(),
    ensures
        i <= line_end(s, i) <= s.len(),
    decreases s.len() - i,
{
    if i < s.len() && s[i] != 0x0A {
        lemma_line_end(s, i + 1);
    }
}

/// The bounds of `s[start..end]` without its leading and trailing whitespace.
fn trim_bounds(s: &[u8], start: usize, end: usize) -> (r: (usize, usize))
    requires
        start <= end <= s@.len(),
    ensures
        start <= r.0 <= r.1 <= end,
        s@.subrange(r.0 as int, r.1 as int) == trim(s@.subrange(start as int, end as int)),
{
    let mut a = start;
    while a < end && (s[a] == 0x20 || (0x09 <= s[a] && s[a] <= 0x0D))
        invariant
            start <= a <= end <= s@.len(),
            trim_start(s@.subrange(a as int, end as int)) == trim_start(
                s@.subrange(start as int, end as int),
            ),
        decreases end - a,
    {
        proof {
            assert(s@.subrange(a as int, end as int).drop_first() =~= s@.subrange(a + 1, end as int));
        }
        a += 1;
    }
    let mut b = end;
    proof {
        assert(trim_start(s@.subrange(a as int, end as int)) == s@.subrange(a as int, end as int));
    }
    while b > a && (s[b - 1] == 0x20 || (0x09 <= s[b - 1] && s[b - 1] <= 0x0D))
        invariant
            start <= a <= b <= end <= s@.len(),
            trim_end(s@.subrange(a as int, b as int)) == trim(s@.subrange(start as int, end as int)),
        decreases b - a,
    {
        proof {
            assert(s@.subrange(a as int, b as int).drop_last() =~= s@.subrange(a as int, b - 1));
        }
        b -= 1;
    }
    (a, b)
}

/// Parses the hexadecimal address `s[start..end]`.
fn parse_hex_in(s: &[u8], start: usize, end: usize) -> (r: Option<u64>)
    requires
        start <= end <= s@.len(),
    ensures
        r == parse_hex(s@.subrange(start as int, end as int)),
{
    let ghost w = s@.subrange(start as int, end as int);
    let mut i = start;
    if i < end && s[i] == 0x2B {
        i += 1;
    }
    let ghost d = s@.subrange(i as int, end as int);
    proof {
        if w.len() > 0 && w[0] == 0x2B {
            assert(w.drop_first() =~= d);
        } else {
            assert(w =~= d);
        }
    }
    if i == end {
        return None;
    }
    let first = i;
    let mut acc: u128 = 0;
    let mut over = false;
    while i < end
        invariant
            first <= i <= end <= s@.len(),
            d == s@.subrange(first as int, end as int),
            w == s@.subrange(start as int, end as int),
            d.len() > 0,
            w.len() > 0 && w[0] == 0x2B ==> w.drop_first() == d,
            !(w.len() > 0 && w[0] == 0x2B) ==> w == d,
            all_hex(s@.subrange(first as int, i as int)),
            over ==> hex_value(s@.subrange(first as int, i as int)) > u64::MAX,
            !over ==> acc == hex_value(s@.subrange(first as int, i as int)) && acc <= u64::MAX,
        decreases end - i,
    {
        let b = s[i];
        let v: u128 = if 0x30 <= b && b <= 0x39 {
            (b - 0x30) as u128
        } else if 0x41 <= b && b <= 0x46 {
            (b - 0x41 + 10) as u128
        } else if 0x61 <= b && b <= 0x66 {
            (b - 0x61 + 10) as u128
        } else {
            proof {
                assert(d[i - first] == b);
                assert(hex_val(d[i - first]) < 0);
                assert(!all_hex(d));
                assert(parse_hex(w) is None);
            }
            return None;
        };
        let ghost prev = s@.subrange(first as int, i as int);
        let ghost next = s@.subrange(first as int, i + 1);
        proof {
            assert(next.drop_last() =~= prev);
            assert(next.last() == b);
            assert forall|m: int| 0 <= m < next.len() implies hex_val(#[trigger] next[m]) >= 0 by {
                if m < prev.len() {
                    assert(next[m] == prev[m]);
                }
            }
        }
        if !over {
            acc = acc * 16 + v;
            if acc > 0xFFFF_FFFF_FFFF_FFFF {
                over = true;
            }
        } else {
            proof {
                assert(hex_value(next) >= hex_value(prev) * 16);
            }
        }
        i += 1;
    }
    proof {
        assert(s@.subrange(first as int, i as int) =~= d);
    }
    if over {
        None
    } else {
        Some(acc as u64)
    }
}

/// Parses one address of a seed line, `s[start..end]`, and makes it relative to `base`.
fn parse_address_in(s: &[u8], start: usize, end: usize, base: u64) -> (r: Result<u64, SeedError>)
    requires
        start <= end <= s@.len(),
    ensures
        r == parse_address(s@.subrange(start as int, end as int), base),
{
    let (a, b) = trim_bounds(s, start, end);
    match parse_hex_in(s, a, b) {
        None => Err(SeedError::InvalidAddress),
        Some(v) => if v < base {
            Err(SeedError::BeforeBase)
        } else {
            Ok(v - base)
        },
    }
}

/// Parses a seed file: one pair `<lhs>, <rhs>` of absolute hexadecimal addresses per line,
/// blank lines ignored, each address made relative to the base of its side's text section.
/// The first malformed line decides the error.
pub fn parse_seeds(text: &[u8], lhs_base: u64, rhs_base: u64) -> (r: Result<Vec<(u64, u64)>, SeedError>)
    requires
        text@.len() < usize::MAX,
    ensures
        match parse_from(text@, 0, lhs_base, rhs_base) {
            Ok(v) => r is Ok && r->Ok_0@ == v,
            Err(e) => r == Err::<Vec<(u64, u64)>, SeedError>(e),
        },
{
    let ghost goal = parse_from(text@, 0, lhs_base, rhs_base);
    let mut out: Vec<(u64, u64)> = Vec::new();
    let mut i: usize = 0;
    while i <= text.len()
        invariant
            text@.len() < usize::MAX,
            goal == parse_from(text@, 0, lhs_base, rhs_base),
            i <= text@.len() + 1,
            match parse_from(text@, i as int, lhs_base, rhs_base) {
                Ok(rest) => goal == Ok::<Seq<(u64, u64)>, SeedError>(out@ + rest),
                Err(e) => goal == Err::<Seq<(u64, u64)>, SeedError>(e),
            },
        decreases text@.len() + 1 - i,
    {
        let mut e = i;
        while e < text.len() && text[e] != 0x0A
            invariant
                i <= e <= text@.len(),
                line_end(text@, e as int) == line_end(text@, i as int),
            decreases text@.len() - e,
        {
            e += 1;
        }
        let ghost line = text@.subrange(i as int, e as int);
        proof {
            assert(line_end(text@, e as int) == e);
            assert(line_end(text@, i as int) == e);
            lemma_line_end(text@, i as int);
        }
        let (a, b) = trim_bounds(text, i, e);
        let ghost t = text@.subrange(a as int, b as int);
        if a == b {
            proof {
                assert(t.len() == 0);
            }
            i = e + 1;
            continue;
        }
        let mut c = a;
        while c < b && text[c] != 0x2C
            invariant
                a <= c <= b <= text@.len(),
                t == text@.subrange(a as int, b as int),
                comma_from(t, c - a) == comma_from(t, 0),
            decreases b - c,
        {
            c += 1;
        }
        if c == b {
            proof {
                assert(comma_from(t, 0) == -1);
                assert(parse_line(line, lhs_base, rhs_base) == Some(
                    Err::<(u64, u64), SeedError>(SeedError::MissingComma),
                ));
                assert(parse_from(text@, i as int, lhs_base, rhs_base) == Err::<
                    Seq<(u64, u64)>,
                    SeedError,
                >(SeedError::MissingComma));
            }
            return Err(SeedError::MissingComma);
        }
        proof {
            assert(comma_from(t, 0) == c - a);
            assert(t.subrange(0, c - a) =~= text@.subrange(a as int, c as int));
            assert(t.subrange(c - a + 1, t.len() as int) =~= text@.subrange(c + 1, b as int));
        }
        let l = match parse_address_in(text, a, c, lhs_base) {
            Err(err) => {
                proof {
                    assert(parse_line(line, lhs_base, rhs_base) == Some(
                        Err::<(u64, u64), SeedError>(err),
                    ));
                    assert(parse_from(text@, i as int, lhs_base, rhs_base) == Err::<
                        Seq<(u64, u64)>,
                        SeedError,
                    >(err));
                }
                return Err(err);
            },
            Ok(v) => v,
        };
        let r = match parse_address_in(text, c + 1, b, rhs_base) {
            Err(err) => {
                proof {
                    assert(parse_line(line, lhs_base, rhs_base) == Some(
                        Err::<(u64, u64), SeedError>(err),
                    ));
                    assert(parse_from(text@, i as int, lhs_base, rhs_base) == Err::<
                        Seq<(u64, u64)>,
                        SeedError,
                    >(err));
                }
                return Err(err);
            },
            Ok(v) => v,
        };
        proof {
            assert(parse_line(line, lhs_base, rhs_base) == Some(
                Ok::<(u64, u64), SeedError>((l, r)),
            ));
        }
        let ghost before = out@;
        out.push((l, r));
        proof {
            match parse_from(text@, e + 1, lhs_base, rhs_base) {
                Ok(rest) => {
                    assert(before + (seq![(l, r)] + rest) =~= out@ + rest);
                },
                Err(_) => {},
            }
        }
        i = e + 1;
    }
    Ok(out)
}

} // verus!
