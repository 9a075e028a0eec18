use vstd::prelude::*;

verus! {

// ---------------------------------------------------------------------------
// Characters and strings
// ---------------------------------------------------------------------------

/// The views of a sequence of character vectors.
pub open spec fn char_views(vs: Seq<Vec<char>>) -> Seq<Seq<char>> {
    vs.map_values(|v: Vec<char>| v@)
}

/// The characters of `s`, in order.
pub fn to_chars(s: &str) -> (r: Vec<char>)
    ensures
        r@ == s@,
{
    let mut r: Vec<char> = Vec::new();
    for c in it: s.chars()
        invariant
            it.seq() == s@,
            r@ == it.seq().take(it.index() as int),
    {
        r.push(c);
    }
    r
}

/// `String::push`: appends one character at the end of the string.
#[verifier::external_body]
pub fn push_char(s: &mut String, c: char)
    ensures
        final(s)@ == old(s)@.push(c),
{
    s.push(c);
}

/// Appends the characters of `v` to `s`.
pub fn push_chars(s: &mut String, v: &[char])
    ensures
        final(s)@ == old(s)@ + v@,
{
    let ghost s0 = s@;
    for i in 0..v.len()
        invariant
            s@ == s0 + v@.take(i as int),
    {
        push_char(s, v[i]);
        assert(v@.take(i + 1) =~= v@.take(i as int).push(v@[i as int]));
    }
    assert(v@.take(v@.len() as int) =~= v@);
}

/// Appends a string slice to `s`.
pub fn push_str(s: &mut String, t: &str)
    ensures
        final(s)@ == old(s)@ + t@,
{
    s.append(t);
}

/// A string made of the given characters.
pub fn string_of(v: &[char]) -> (r: String)
    ensures
        r@ == v@,
{
    let mut r = String::new();
    push_chars(&mut r, v);
    r
}

/// Whether the two character sequences are equal.
pub fn chars_eq(a: &[char], b: &[char]) -> (r: bool)
    ensures
        r == (a@ == b@),
{
    if a.len() != b.len() {
        return false;
    }
    let mut i: usize = 0;
    while i < a.len()
        invariant
            a@.len() == b@.len(),
            0 <= i <= a@.len(),
            forall|j: int| 0 <= j < i ==> a@[j] == b@[j],
        decreases a@.len() - i,
    {
        if a[i] != b[i] {
            return false;
        }
        i = i + 1;
    }
    assert(a@ =~= b@);
    true
}

/// Whether character `c` occurs in `s`.
pub open spec fn has_char(s: Seq<char>, c: char) -> bool {
    exists|i: int| 0 <= i < s.len() && s[i] == c
}

/// Whether character `c` occurs in `v`.
pub fn contains_char(v: &[char], c: char) -> (r: bool)
    ensures
        r == has_char(v@, c),
{
    let mut i: usize = 0;
    while i < v.len()
        invariant
            0 <= i <= v@.len(),
            forall|j: int| 0 <= j < i ==> v@[j] != c,
        decreases v@.len() - i,
    {
        if v[i] == c {
            return true;
        }
        i = i + 1;
    }
    false
}

/// Whether `s` begins with `p`.
pub open spec fn starts_with(s: Seq<char>, p: Seq<char>) -> bool {
    p.len() <= s.len() && s.take(p.len() as int) == p
}

/// Whether `s` ends with the character `c`.
pub open spec fn ends_with_char(s: Seq<char>, c: char) -> bool {
    s.len() > 0 && s.last() == c
}

/// Whether the characters `v[lo..hi]` begin with `p`.
pub fn range_starts_with(v: &[char], lo: usize, hi: usize, p: &[char]) -> (r: bool)
    requires
        lo <= hi <= v@.len(),
    ensures
        r == starts_with(v@.subrange(lo as int, hi as int), p@),
{
    if p.len() > hi - lo {
        return false;
    }
    let mut i: usize = 0;
    while i < p.len()
        invariant
            p@.len() <= hi - lo,
            lo <= hi <= v@.len(),
            0 <= i <= p@.len(),
            forall|j: int| 0 <= j < i ==> v@[lo + j] == p@[j],
        decreases p@.len() - i,
    {
        if v[lo + i] != p[i] {
            assert(v@.subrange(lo as int, hi as int).take(p@.len() as int)[i as int] != p@[i as int]);
            return false;
        }
        i = i + 1;
    }
    assert(v@.subrange(lo as int, hi as int).take(p@.len() as int) =~= p@);
    true
}

// ---------------------------------------------------------------------------
// Whitespace and trimming
// ---------------------------------------------------------------------------

/// Unicode `White_Space` characters, as `char::is_whitespace` classifies them.
pub open spec fn is_white_space(c: char) -> bool {
    let u = c as u32;
    ||| 0x9 <= u <= 0xd
    ||| u == 0x20
    ||| u == 0x85
    ||| u == 0xa0
    ||| u == 0x1680
    ||| 0x2000 <= u <= 0x200a
    ||| u == 0x2028
    ||| u == 0x2029
    ||| u == 0x202f
    ||| u == 0x205f
    ||| u == 0x3000
}

/// Whether `c` is a Unicode whitespace character.
pub fn is_whitespace(c: char) -> (r: bool)
    ensures
        r == is_white_space(c),
{
    let u = c as u32;
    (0x9 <= u && u <= 0xd) || u == 0x20 || u == 0x85 || u == 0xa0 || u == 0x1680 || (0x2000 <= u
        && u <= 0x200a) || u == 0x2028 || u == 0x2029 || u == 0x202f || u == 0x205f || u == 0x3000
}

/// `s` without its leading whitespace.
pub open spec fn trim_start(s: Seq<char>) -> Seq<char>
    decreases s.len(),
{
    if s.len() > 0 && is_white_space(s[0]) {
        trim_start(s.drop_first())
    } else {
        s
    }
}

/// `s` without its trailing whitespace.
pub open spec fn trim_end(s: Seq<char>) -> Seq<char>
    decreases s.len(),
{
    if s.len() > 0 && is_white_space(s.last()) {
        trim_end(s.drop_last())
    } else {
        s
    }
}

/// `s` without leading and trailing whitespace (`str::trim`).
pub open spec fn trim(s: Seq<char>) -> Seq<char> {
    trim_end(trim_start(s))
}

/// The bounds of the trimmed part of `v`.
pub fn trim_bounds(v: &[char]) -> (r: (usize, usize))
    ensures
        r.0 <= r.1 <= v@.len(),
        v@.subrange(r.0 as int, r.1 as int) == trim(v@),
{
    let mut lo: usize = 0;
    assert(v@.subrange(0, v@.len() as int) =~= v@);
    while lo < v.len() && is_whitespace(v[lo])
        invariant
            0 <= lo <= v@.len(),
            trim_start(v@) == trim_start(v@.subrange(lo as int, v@.len() as int)),
        decreases v@.len() - lo,
    {
        assert(v@.subrange(lo as int, v@.len() as int).drop_first() =~= v@.subrange(
            lo + 1,
            v@.len() as int,
        ));
        lo = lo + 1;
    }
    assert(trim_start(v@.subrange(lo as int, v@.len() as int)) == v@.subrange(
        lo as int,
        v@.len() as int,
    ));
    let mut hi: usize = v.len();
    while hi > lo && is_whitespace(v[hi - 1])
        invariant
            lo <= hi <= v@.len(),
            trim(v@) == trim_end(v@.subrange(lo as int, hi as int)),
        decreases hi,
    {
        assert(v@.subrange(lo as int, hi as int).drop_last() =~= v@.subrange(
            lo as int,
            hi - 1,
        ));
        hi = hi - 1;
    }
    (lo, hi)
}

/// Whether `s` holds nothing but whitespace.
pub open spec fn is_blank(s: Seq<char>) -> bool {
    trim(s).len() == 0
}

// ---------------------------------------------------------------------------
// Lines
// ---------------------------------------------------------------------------

/// Removes one trailing carriage return.
pub open spec fn strip_cr(s: Seq<char>) -> Seq<char> {
    if s.len() > 0 && s.last() == '\r' {
        s.drop_last()
    } else {
        s
    }
}

/// The lines of `s` after the partial line `cur` (see `lines_of`).
pub open spec fn lines_acc(s: Seq<char>, cur: Seq<char>) -> Seq<Seq<char>>
    decreases s.len(),
{
    if s.len() == 0 {
        if cur.len() == 0 {
            seq![]
        } else {
            seq![cur]
        }
    } else if s[0] == '\n' {
        seq![strip_cr(cur)] + lines_acc(s.drop_first(), seq![])
    } else {
        lines_acc(s.drop_first(), cur.push(s[0]))
    }
}

/// The lines of `s`, as `str::lines` yields them: split at `\n` (a `\r`
/// before it is dropped as well), with no empty line after a final `\n`.
pub open spec fn lines_of(s: Seq<char>) -> Seq<Seq<char>> {
    lines_acc(s, seq![])
}

/// The lines of the characters `v`.
pub fn split_lines(v: &[char]) -> (r: Vec<Vec<char>>)
    ensures
        char_views(r@) == lines_of(v@),
{
    let mut out: Vec<Vec<char>> = Vec::new();
    let mut cur: Vec<char> = Vec::new();
    let mut i: usize = 0;
    assert(v@.skip(0) =~= v@);
    while i < v.len()
        invariant
            0 <= i <= v@.len(),
            lines_of(v@) == char_views(out@) + lines_acc(v@.skip(i as int), cur@),
        decreases v@.len() - i,
    {
        let ghost rest = v@.skip(i as int);
        let ghost cur0 = cur@;
        let ghost prev = char_views(out@);
        assert(rest.drop_first() =~= v@.skip(i + 1));
        assert(rest[0] == v@[i as int]);
        if v[i] == '\n' {
            let n = cur.len();
            if n > 0 && cur[n - 1] == '\r' {
                cur.pop();
                assert(cur@ =~= cur0.drop_last());
            }
            assert(cur@ == strip_cr(cur0));
            out.push(cur);
            assert(char_views(out@) =~= prev.push(strip_cr(cur0)));
            assert(prev + lines_acc(rest, cur0) =~= prev.push(strip_cr(cur0)) + lines_acc(
                rest.drop_first(),
                seq![],
            ));
            cur = Vec::new();
        } else {
            cur.push(v[i]);
        }
        i = i + 1;
    }
    assert(v@.skip(i as int) =~= Seq::<char>::empty());
    if cur.len() > 0 {
        let ghost prev = char_views(out@);
        let ghost last = cur@;
        out.push(cur);
        assert(char_views(out@) =~= prev + seq![last]);
    } else {
        assert(char_views(out@) =~= char_views(out@) + Seq::<Seq<char>>::empty());
    }
    out
}

// ---------------------------------------------------------------------------
// Joining
// ---------------------------------------------------------------------------

/// The parts joined with `sep` between each two of them (`[T]::join`).
pub open spec fn join(parts: Seq<Seq<char>>, sep: Seq<char>) -> Seq<char>
    decreases parts.len(),
{
    if parts.len() == 0 {
        seq![]
    } else if parts.len() == 1 {
        parts[0]
    } else {
        join(parts.drop_last(), sep) + sep + parts.last()
    }
}

/// One step of `join`: adding a part at the end.
pub proof fn lemma_join_push(parts: Seq<Seq<char>>, sep: Seq<char>, p: Seq<char>)
    ensures
        join(parts.push(p), sep) == if parts.len() == 0 {
            p
        } else {
            join(parts, sep) + sep + p
        },
{
    assert(parts.push(p).drop_last() =~= parts);
}

/// Appends the views of `parts`, joined with `sep`.
pub fn push_joined(out: &mut String, parts: &[String], sep: &str)
    ensures
        final(out)@ == old(out)@ + join(parts@.map_values(|s: String| s@), sep@),
{
    let ghost s0 = out@;
    let ghost views = parts@.map_values(|s: String| s@);
    for i in 0..parts.len()
        invariant
            views == parts@.map_values(|s: String| s@),
            out@ == s0 + join(views.take(i as int), sep@),
    {
        proof {
            assert(views.take(i + 1) =~= views.take(i as int).push(views[i as int]));
            lemma_join_push(views.take(i as int), sep@, views[i as int]);
        }
        if i > 0 {
            push_str(out, sep);
        }
        push_str(out, parts[i].as_str());
    }
    assert(views.take(parts@.len() as int) =~= views);
}

// ---------------------------------------------------------------------------
// Numbers
// ---------------------------------------------------------------------------

/// The decimal digit for `d` (0 through 9).
pub open spec fn digit_char(d: nat) -> char {
    if d == 0 {
        '0'
    } else if d == 1 {
        '1'
    } else if d == 2 {
        '2'
    } else if d == 3 {
        '3'
    } else if d == 4 {
        '4'
    } else if d == 5 {
        '5'
    } else if d == 6 {
        '6'
    } else if d == 7 {
        '7'
    } else if d == 8 {
        '8'
    } else {
        '9'
    }
}

/// The decimal representation of `n`, without leading zeros.
pub open spec fn decimal(n: nat) -> Seq<char>
    decreases n,
{
    if n < 10 {
        seq![digit_char(n)]
    } else {
        decimal(n / 10).push(digit_char(n % 10))
    }
}

/// `s` right-aligned in a field of `width` characters, padded with `fill`.
pub open spec fn pad_left(s: Seq<char>, width: nat, fill: char) -> Seq<char> {
    if s.len() < width {
        Seq::new((width - s.len()) as nat, |i: int| fill) + s
    } else {
        s
    }
}

fn digit(d: u128) -> (c: char)
    requires
        d < 10,
    ensures
        c == digit_char(d as nat),
{
    if d == 0 {
        '0'
    } else if d == 1 {
        '1'
    } else if d == 2 {
        '2'
    } else if d == 3 {
        '3'
    } else if d == 4 {
        '4'
    } else if d == 5 {
        '5'
    } else if d == 6 {
        '6'
    } else if d == 7 {
        '7'
    } else if d == 8 {
        '8'
    } else {
        '9'
    }
}

/// The decimal digits of `n`.
pub fn decimal_chars(n: u128) -> (r: Vec<char>)
    ensures
        r@ == decimal(n as nat),
    decreases n,
{
    if n < 10 {
        let mut r = Vec::new();
        r.push(digit(n));
        r
    } else {
        let mut r = decimal_chars(n / 10);
        r.push(digit(n % 10));
        r
    }
}

/// Appends the decimal representation of `n`.
pub fn push_decimal(out: &mut String, n: u128)
    ensures
        final(out)@ == old(out)@ + decimal(n as nat),
{
    let d = decimal_chars(n);
    push_chars(out, d.as_slice());
}

/// Appends `n` right-aligned in a field of `width` characters, padded with
/// `fill` (`{:width$}` for a space, `{:0width$}` for a zero).
pub fn push_padded(out: &mut String, n: u128, width: usize, fill: char)
    ensures
        final(out)@ == old(out)@ + pad_left(decimal(n as nat), width as nat, fill),
{
    let d = decimal_chars(n);
    let ghost s0 = out@;
    if d.len() < width {
        let k = width - d.len();
        for j in 0..k
            invariant
                out@ == s0 + Seq::new(j as nat, |i: int| fill),
        {
            push_char(out, fill);
            assert(Seq::new((j + 1) as nat, |i: int| fill) =~= Seq::new(j as nat, |i: int| fill).push(
                fill,
            ));
        }
    }
    push_chars(out, d.as_slice());
    assert(out@ =~= s0 + pad_left(decimal(n as nat), width as nat, fill));
}

/// `10` to the power `k`.
pub open spec fn pow10(k: nat) -> nat
    decreases k,
{
    if k == 0 {
        1
    } else {
        10 * pow10((k - 1) as nat)
    }
}

fn exec_pow10(k: u32) -> (r: u128)
    requires
        k <= 6,
    ensures
        r == pow10(k as nat),
        1 <= r <= 1000000,
{
    proof {
        reveal_with_fuel(pow10, 7);
    }
    if k == 0 {
        1
    } else if k == 1 {
        10
    } else if k == 2 {
        100
    } else if k == 3 {
        1000
    } else if k == 4 {
        10000
    } else if k == 5 {
        100000
    } else {
        1000000
    }
}

/// `magnitude / 10^(6 - decimals)` rounded to the nearest integer, ties to even.
pub open spec fn rounded_units(magnitude: nat, decimals: nat) -> nat {
    let unit = pow10((6 - decimals) as nat);
    let q = magnitude / unit;
    let r = magnitude % unit;
    if 2 * r > unit || (2 * r == unit && q % 2 == 1) {
        q + 1
    } else {
        q
    }
}

/// The number `value / 10^6` written with `decimals` digits after the point,
/// rounded to nearest with ties to even (as `{:.N}` writes a value exactly
/// representable in millionths).
pub open spec fn fixed_decimal(value: int, decimals: nat) -> Seq<char> {
    let magnitude = if value < 0 {
        -value
    } else {
        value
    };
    let rounded = rounded_units(magnitude as nat, decimals);
    let sign = if value < 0 {
        seq!['-']
    } else {
        seq![]
    };
    let int_part = decimal(rounded / pow10(decimals));
    let frac_part = if decimals > 0 {
        seq!['.'] + pad_left(decimal(rounded % pow10(decimals)), decimals, '0')
    } else {
        seq![]
    };
    sign + int_part + frac_part
}

fn round_units(magnitude: u128, decimals: u32) -> (r: u128)
    requires
        decimals <= 6,
        magnitude < 0x1_0000_0000_0000_0000_0000_0000,
    ensures
        r == rounded_units(magnitude as nat, decimals as nat),
        r <= magnitude as nat + 1,
{
    let unit = exec_pow10(6 - decimals);
    let q = magnitude / unit;
    let r = magnitude % unit;
    assert(q <= magnitude) by (nonlinear_arith)
        requires
            unit >= 1,
            q == magnitude / unit,
    ;
    if 2 * r > unit || (2 * r == unit && q % 2 == 1) {
        q + 1
    } else {
        q
    }
}

/// Appends `value / 10^6` (where `value` is `-magnitude` when `negative`)
/// with `decimals` digits after the point.
pub fn push_fixed(out: &mut String, negative: bool, magnitude: u128, decimals: u32)
    requires
        decimals <= 6,
        magnitude < 0x1_0000_0000_0000_0000_0000_0000,
    ensures
        final(out)@ == old(out)@ + fixed_decimal(
            if negative {
                -(magnitude as int)
            } else {
                magnitude as int
            },
            decimals as nat,
        ),
{
    let ghost s0 = out@;
    let ghost value: int = if negative {
        -(magnitude as int)
    } else {
        magnitude as int
    };
    let rounded = round_units(magnitude, decimals);
    let p = exec_pow10(decimals);
    let whole = rounded / p;
    let frac = rounded % p;
    if negative && magnitude > 0 {
        push_char(out, '-');
    }
    let ghost s1 = out@;
    push_decimal(out, whole);
    let ghost s2 = out@;
    if decimals > 0 {
        push_char(out, '.');
        push_padded(out, frac, decimals as usize, '0');
    }
    proof {
        let sign: Seq<char> = if value < 0 {
            seq!['-']
        } else {
            seq![]
        };
        let frac_part: Seq<char> = if decimals > 0 {
            seq!['.'] + pad_left(decimal(frac as nat), decimals as nat, '0')
        } else {
            seq![]
        };
        assert(s1 =~= s0 + sign);
        assert(out@ =~= s2 + frac_part);
        assert(fixed_decimal(value, decimals as nat) == sign + decimal(whole as nat) + frac_part);
        assert(out@ =~= s0 + (sign + decimal(whole as nat) + frac_part));
    }
}

/// Where the four parts of `h + a + b + c` lie in it.
pub proof fn lemma_four_parts(h: Seq<char>, a: Seq<char>, b: Seq<char>, c: Seq<char>)
    ensures
        (h + a + b + c).len() == h.len() + a.len() + b.len() + c.len(),
        (h + a + b + c).subrange(0, h.len() as int) == h,
        (h + a + b + c).subrange(h.len() as int, (h.len() + a.len()) as int) == a,
        (h + a + b + c).subrange((h.len() + a.len()) as int, (h.len() + a.len() + b.len()) as int) == b,
        (h + a + b + c).subrange((h.len() + a.len() + b.len()) as int, (h + a + b + c).len() as int) == c,
{
    let o = h + a + b + c;
    assert(o.subrange(0, h.len() as int) =~= h);
    assert(o.subrange(h.len() as int, (h.len() + a.len()) as int) =~= a);
    assert(o.subrange((h.len() + a.len()) as int, (h.len() + a.len() + b.len()) as int) =~= b);
    assert(o.subrange((h.len() + a.len() + b.len()) as int, o.len() as int) =~= c);
}

} // verus!
