//! Character-level building blocks shared by the id, audit and digest
//! renderers: decimal and hexadecimal digits, zero padding, and the
//! conversions between `String` and its characters.

use vstd::prelude::*;

verus! {

/// The decimal digit character for `d` (`0 <= d < 10`).
pub open spec fn digit_char(d: nat) -> char {
    if d == 0 { '0' }
    else if d == 1 { '1' }
    else if d == 2 { '2' }
    else if d == 3 { '3' }
    else if d == 4 { '4' }
    else if d == 5 { '5' }
    else if d == 6 { '6' }
    else if d == 7 { '7' }
    else if d == 8 { '8' }
    else { '9' }
}

/// The value of a decimal digit character, `None` for any other character.
pub open spec fn digit_value(c: char) -> Option<nat> {
    if c == '0' { Some(0) }
    else if c == '1' { Some(1) }
    else if c == '2' { Some(2) }
    else if c == '3' { Some(3) }
    else if c == '4' { Some(4) }
    else if c == '5' { Some(5) }
    else if c == '6' { Some(6) }
    else if c == '7' { Some(7) }
    else if c == '8' { Some(8) }
    else if c == '9' { Some(9) }
    else { None }
}

/// The shortest decimal rendering of `n` (no sign, no leading zeros; `0` is `"0"`).
pub open spec fn decimal(n: nat) -> Seq<char>
    decreases n,
{
    if n < 10 {
        seq![digit_char(n)]
    } else {
        decimal(n / 10).push(digit_char(n % 10))
    }
}

/// `s` left-padded with `'0'` to at least `width` characters.
pub open spec fn zero_pad(s: Seq<char>, width: nat) -> Seq<char> {
    if s.len() >= width {
        s
    } else {
        Seq::new((width - s.len()) as nat, |i: int| '0') + s
    }
}

/// Every character of `s` is a decimal digit.
pub open spec fn all_digits(s: Seq<char>) -> bool {
    forall|i: int| 0 <= i < s.len() ==> (#[trigger] digit_value(s[i])) is Some
}

/// The number a string of decimal digits denotes, read left to right.
pub open spec fn digits_value(s: Seq<char>) -> nat
    decreases s.len(),
{
    if s.len() == 0 {
        0
    } else {
        digits_value(s.drop_last()) * 10 + match digit_value(s.last()) {
            Some(d) => d,
            None => 0,
        }
    }
}

/// The lowercase hexadecimal digit character for `d` (`0 <= d < 16`).
pub open spec fn hex_char(d: nat) -> char {
    if d < 10 {
        digit_char(d)
    } else if d == 10 { 'a' }
    else if d == 11 { 'b' }
    else if d == 12 { 'c' }
    else if d == 13 { 'd' }
    else if d == 14 { 'e' }
    else { 'f' }
}

/// Two lowercase hex digits per byte, most significant nibble first.
pub open spec fn hex_of(bytes: Seq<u8>) -> Seq<char>
    decreases bytes.len(),
{
    if bytes.len() == 0 {
        Seq::empty()
    } else {
        hex_of(bytes.drop_last()) + seq![
            hex_char((bytes.last() / 16) as nat),
            hex_char((bytes.last() % 16) as nat),
        ]
    }
}

pub proof fn lemma_decimal_digits(n: nat)
    ensures
        all_digits(decimal(n)),
        decimal(n).len() >= 1,
        digits_value(decimal(n)) == n,
    decreases n,
{
    lemma_digit_round_trip(n % 10);
    if n < 10 {
        let t = seq![digit_char(n)];
        assert(t.drop_last() =~= Seq::<char>::empty());
        assert(digits_value(t) == digits_value(t.drop_last()) * 10 + n);
    }
    if n >= 10 {
        lemma_decimal_digits(n / 10);
        let s = decimal(n / 10);
        let t = s.push(digit_char(n % 10));
        assert(t.drop_last() =~= s);
        assert(n == (n / 10) * 10 + n % 10);
        assert(t.last() == digit_char(n % 10));
        assert(digits_value(t) == digits_value(s) * 10 + n % 10);
        assert forall|i: int| 0 <= i < t.len() implies (#[trigger] digit_value(t[i])) is Some by {
            if i < s.len() {
                assert(t[i] == s[i]);
            }
        }
    }
}

pub proof fn lemma_digit_round_trip(d: nat)
    requires
        d < 10,
    ensures
        digit_value(digit_char(d)) == Some(d),
{
}

pub proof fn lemma_zero_prefix_value(k: nat, s: Seq<char>)
    ensures
        digits_value(Seq::new(k, |i: int| '0') + s) == digits_value(s),
    decreases s.len(),
{
    let z = Seq::new(k, |i: int| '0');
    if s.len() == 0 {
        assert(z + s =~= z);
        lemma_zeros_value(k);
    } else {
        lemma_zero_prefix_value(k, s.drop_last());
        assert((z + s).drop_last() =~= z + s.drop_last());
        assert((z + s).last() == s.last());
    }
}

pub proof fn lemma_zeros_value(k: nat)
    ensures
        digits_value(Seq::new(k, |i: int| '0')) == 0,
    decreases k,
{
    if k > 0 {
        lemma_zeros_value((k - 1) as nat);
        assert(Seq::new(k, |i: int| '0').drop_last() =~= Seq::new((k - 1) as nat, |i: int| '0'));
    }
}

/// A zero-padded decimal rendering still denotes the number it renders.
pub proof fn lemma_zero_pad_decimal(n: nat, width: nat)
    ensures
        all_digits(zero_pad(decimal(n), width)),
        digits_value(zero_pad(decimal(n), width)) == n,
        zero_pad(decimal(n), width).len() >= width,
        zero_pad(decimal(n), width).len() >= 1,
{
    lemma_decimal_digits(n);
    let s = decimal(n);
    if s.len() < width {
        let k = (width - s.len()) as nat;
        lemma_zero_prefix_value(k, s);
        let t = Seq::new(k, |i: int| '0') + s;
        assert forall|i: int| 0 <= i < t.len() implies (#[trigger] digit_value(t[i])) is Some by {
            if i >= k {
                assert(t[i] == s[i - k]);
            }
        }
    }
}

pub proof fn lemma_hex_len(bytes: Seq<u8>)
    ensures
        hex_of(bytes).len() == 2 * bytes.len(),
    decreases bytes.len(),
{
    if bytes.len() > 0 {
        lemma_hex_len(bytes.drop_last());
    }
}

/// A lowercase hexadecimal digit: `0`-`9` or `a`-`f`.
pub open spec fn is_lower_hex(c: char) -> bool {
    ('0' <= c && c <= '9') || ('a' <= c && c <= 'f')
}

/// Every character of a hex rendering is a lowercase hex digit.
pub proof fn lemma_hex_chars(bytes: Seq<u8>)
    ensures
        forall|i: int| 0 <= i < hex_of(bytes).len() ==> is_lower_hex(#[trigger] hex_of(bytes)[i]),
    decreases bytes.len(),
{
    if bytes.len() > 0 {
        lemma_hex_chars(bytes.drop_last());
        let prev = hex_of(bytes.drop_last());
        let hi = hex_char((bytes.last() / 16) as nat);
        let lo = hex_char((bytes.last() % 16) as nat);
        assert(is_lower_hex(hi));
        assert(is_lower_hex(lo));
        assert forall|i: int| 0 <= i < hex_of(bytes).len() implies is_lower_hex(#[trigger] hex_of(bytes)[i]) by {
            if i < prev.len() {
                assert(hex_of(bytes)[i] == prev[i]);
            }
        }
    }
}

/// Appends `c` to `s`: `String::push`.
#[verifier::external_body]
pub fn push_char(s: &mut String, c: char)
    ensures
        final(s)@ == old(s)@.push(c),
{
    s.push(c);
}

/// A `String` holding exactly `chars`.
pub fn string_of(chars: &Vec<char>) -> (res: String)
    ensures
        res@ == chars@,
{
    let mut out = String::new();
    let mut i: usize = 0;
    while i < chars.len()
        invariant
            i <= chars.len(),
            out@ == chars@.subrange(0, i as int),
        decreases chars.len() - i,
    {
        push_char(&mut out, chars[i]);
        i = i + 1;
        assert(out@ =~= chars@.subrange(0, i as int));
    }
    assert(chars@.subrange(0, chars.len() as int) =~= chars@);
    out
}

/// The characters of `s`, in order.
pub fn chars_of(s: &str) -> (res: Vec<char>)
    ensures
        res@ == s@,
{
    let n = s.unicode_len();
    let mut out: Vec<char> = Vec::new();
    let mut i: usize = 0;
    while i < n
        invariant
            n == s@.len(),
            i <= n,
            out@ == s@.subrange(0, i as int),
        decreases n - i,
    {
        out.push(s.get_char(i));
        i = i + 1;
        assert(out@ =~= s@.subrange(0, i as int));
    }
    assert(s@.subrange(0, n as int) =~= s@);
    out
}

/// Appends every character of `t` to `out`.
pub fn push_str(out: &mut Vec<char>, t: &str)
    ensures
        final(out)@ == old(out)@ + t@,
{
    let n = t.unicode_len();
    let mut i: usize = 0;
    let ghost start = out@;
    while i < n
        invariant
            n == t@.len(),
            i <= n,
            out@ == start + t@.subrange(0, i as int),
        decreases n - i,
    {
        out.push(t.get_char(i));
        i = i + 1;
        assert(out@ =~= start + t@.subrange(0, i as int));
    }
    assert(t@.subrange(0, n as int) =~= t@);
}

/// The decimal digit character for `d`.
pub fn digit_char_exec(d: u64) -> (c: char)
    requires
        d < 10,
    ensures
        c == digit_char(d as nat),
{
    if d == 0 { '0' }
    else if d == 1 { '1' }
    else if d == 2 { '2' }
    else if d == 3 { '3' }
    else if d == 4 { '4' }
    else if d == 5 { '5' }
    else if d == 6 { '6' }
    else if d == 7 { '7' }
    else if d == 8 { '8' }
    else { '9' }
}

/// Appends `n` in decimal, left-padded with zeros to `width` characters.
pub fn push_decimal(out: &mut Vec<char>, n: u64, width: usize)
    ensures
        final(out)@ == old(out)@ + zero_pad(decimal(n as nat), width as nat),
{
    // Digits least significant first.
    let mut rev: Vec<char> = Vec::new();
    let c0 = digit_char_exec(n % 10);
    rev.push(c0);
    let mut m: u64 = n / 10;
    proof {
        if n >= 10 {
            assert(rev@.reverse() =~= seq![c0]);
        } else {
            assert(rev@.reverse() =~= seq![c0]);
        }
    }
    while m > 0
        invariant
            rev@.len() >= 1,
            decimal(n as nat) =~= (if m > 0 { decimal(m as nat) } else { Seq::empty() }) + rev@.reverse(),
        decreases m,
    {
        let c = digit_char_exec(m % 10);
        let ghost old_rev = rev@;
        let ghost old_m = m;
        rev.push(c);
        m = m / 10;
        proof {
            assert(rev@.reverse() =~= seq![c] + old_rev.reverse());
            if old_m >= 10 {
                assert(decimal(old_m as nat) == decimal((old_m / 10) as nat).push(digit_char((old_m % 10) as nat)));
            } else {
                assert(decimal(old_m as nat) == seq![digit_char(old_m as nat)]);
            }
        }
    }
    let ghost s = rev@.reverse();
    let ghost start = out@;
    let len = rev.len();
    // Zero padding.
    let mut k: usize = len;
    while k < width
        invariant
            len == rev@.len(),
            len <= k,
            k <= width || len > width,
            len < width ==> out@ == start + Seq::new((k - len) as nat, |i: int| '0'),
            len >= width ==> out@ == start,
        decreases width - k,
    {
        out.push('0');
        proof {
            assert(Seq::new((k + 1 - len) as nat, |i: int| '0') =~= Seq::new((k - len) as nat, |i: int| '0').push('0'));
        }
        k = k + 1;
    }
    let ghost mid = out@;
    let mut j: usize = len;
    while j > 0
        invariant
            j <= len,
            len == rev@.len(),
            out@ == mid + rev@.reverse().subrange(0, (len - j) as int),
        decreases j,
    {
        j = j - 1;
        out.push(rev[j]);
        proof {
            assert(rev@.reverse()[(len - j - 1) as int] == rev@[j as int]);
            assert(out@ =~= mid + rev@.reverse().subrange(0, (len - j) as int));
        }
    }
    proof {
        assert(rev@.reverse().subrange(0, len as int) =~= rev@.reverse());
        let d = decimal(n as nat);
        if d.len() < width {
            assert(mid == start + Seq::new((width - len) as nat, |i: int| '0'));
        }
        assert(out@ =~= start + zero_pad(d, width as nat));
    }
}


/// Whether two character vectors hold the same characters.
pub fn chars_equal(a: &Vec<char>, b: &Vec<char>) -> (res: bool)
    ensures
        res == (a@ == b@),
{
    if a.len() != b.len() {
        return false;
    }
    let mut i: usize = 0;
    while i < a.len()
        invariant
            a.len() == b.len(),
            i <= a.len(),
            forall|j: int| 0 <= j < i ==> a@[j] == b@[j],
        decreases a.len() - i,
    {
        if a[i] != b[i] {
            return false;
        }
        i = i + 1;
    }
    assert(a@ =~= b@);
    true
}

/// The characters `v[lo..hi]`.
pub fn sub_chars(v: &Vec<char>, lo: usize, hi: usize) -> (res: Vec<char>)
    requires
        lo <= hi <= v.len(),
    ensures
        res@ == v@.subrange(lo as int, hi as int),
{
    let mut out: Vec<char> = Vec::new();
    let mut i: usize = lo;
    while i < hi
        invariant
            lo <= i <= hi,
            hi <= v.len(),
            out@ == v@.subrange(lo as int, i as int),
        decreases hi - i,
    {
        out.push(v[i]);
        i = i + 1;
        assert(out@ =~= v@.subrange(lo as int, i as int));
    }
    out
}

/// The value of `c` as a decimal digit, if it is one.
pub fn digit_value_exec(c: char) -> (res: Option<u64>)
    ensures
        match res {
            Some(d) => digit_value(c) == Some(d as nat) && d < 10,
            None => digit_value(c) is None,
        },
{
    if c == '0' { Some(0) }
    else if c == '1' { Some(1) }
    else if c == '2' { Some(2) }
    else if c == '3' { Some(3) }
    else if c == '4' { Some(4) }
    else if c == '5' { Some(5) }
    else if c == '6' { Some(6) }
    else if c == '7' { Some(7) }
    else if c == '8' { Some(8) }
    else if c == '9' { Some(9) }
    else { None }
}

/// `u64`'s decimal grammar as `str::parse` reads it: an optional leading
/// `+` (never alone), then one or more decimal digits whose value fits.
pub open spec fn parse_u64(s: Seq<char>) -> Option<u64> {
    let t = if s.len() > 1 && s[0] == '+' { s.drop_first() } else { s };
    if t.len() > 0 && all_digits(t) && digits_value(t) <= u64::MAX {
        Some(digits_value(t) as u64)
    } else {
        None
    }
}

pub proof fn lemma_digits_value_prefix_step(t: Seq<char>, i: int)
    requires
        0 <= i < t.len(),
    ensures
        digits_value(t.subrange(0, i + 1)) == digits_value(t.subrange(0, i)) * 10 + match digit_value(t[i]) {
            Some(d) => d,
            None => 0,
        },
{
    assert(t.subrange(0, i + 1).drop_last() =~= t.subrange(0, i));
}

pub proof fn lemma_digits_value_monotone_prefix(t: Seq<char>, i: int)
    requires
        0 <= i <= t.len(),
    ensures
        digits_value(t.subrange(0, i)) <= digits_value(t),
    decreases t.len() - i,
{
    if i < t.len() {
        lemma_digits_value_monotone_prefix(t, i + 1);
        lemma_digits_value_prefix_step(t, i);
        assert(digits_value(t.subrange(0, i)) <= digits_value(t.subrange(0, i + 1)));
    } else {
        assert(t.subrange(0, i) =~= t);
    }
}

/// Parses `v[lo..]` with `u64`'s decimal grammar.
pub fn parse_u64_chars(v: &Vec<char>, lo: usize) -> (res: Option<u64>)
    requires
        lo <= v.len(),
    ensures
        res == parse_u64(v@.subrange(lo as int, v@.len() as int)),
{
    let ghost s = v@.subrange(lo as int, v@.len() as int);
    let mut start = lo;
    if v.len() - lo > 1 && v[lo] == '+' {
        start = lo + 1;
    }
    let ghost t = v@.subrange(start as int, v@.len() as int);
    proof {
        if s.len() > 1 && s[0] == '+' {
            assert(t =~= s.drop_first());
        } else {
            assert(t =~= s);
        }
    }
    if start == v.len() {
        return None;
    }
    assert(parse_u64(s) == (if all_digits(t) && digits_value(t) <= u64::MAX {
        Some(digits_value(t) as u64)
    } else {
        None::<u64>
    }));
    let mut acc: u64 = 0;
    let mut i: usize = start;
    while i < v.len()
        invariant
            lo <= start <= i <= v.len(),
            t == v@.subrange(start as int, v@.len() as int),
            parse_u64(v@.subrange(lo as int, v@.len() as int)) == (if all_digits(t) && digits_value(t) <= u64::MAX {
                Some(digits_value(t) as u64)
            } else {
                None::<u64>
            }),
            all_digits(t.subrange(0, i - start)),
            acc as nat == digits_value(t.subrange(0, i - start)),
        decreases v.len() - i,
    {
        let k = i - start;
        proof {
            lemma_digits_value_prefix_step(t, k as int);
            assert(t[k as int] == v@[i as int]);
        }
        match digit_value_exec(v[i]) {
            None => {
                assert(digit_value(t[k as int]) is None);
                assert(!all_digits(t));
                return None;
            }
            Some(d) => {
                if acc > (u64::MAX - d) / 10 {
                    proof {
                        assert(acc * 10 + d > u64::MAX) by (nonlinear_arith)
                            requires acc > (u64::MAX - d) / 10, d < 10;
                        lemma_digits_value_monotone_prefix(t, k + 1);
                    }
                    return None;
                }
                proof {
                    assert(acc * 10 + d <= u64::MAX) by (nonlinear_arith)
                        requires acc <= (u64::MAX - d) / 10, d < 10;
                }
                acc = acc * 10 + d;
                i = i + 1;
                proof {
                    assert forall|j: int| 0 <= j < i - start implies (#[trigger] digit_value(t.subrange(0, i - start)[j])) is Some by {
                        if j < k {
                            assert(t.subrange(0, i - start)[j] == t.subrange(0, k as int)[j]);
                        }
                    }
                }
            }
        }
    }
    assert(t.subrange(0, (v.len() - start) as int) =~= t);
    Some(acc)
}


/// The lowercase hexadecimal digit character for `d`.
pub fn hex_char_exec(d: u8) -> (c: char)
    requires
        d < 16,
    ensures
        c == hex_char(d as nat),
{
    if d < 10 {
        digit_char_exec(d as u64)
    } else if d == 10 { 'a' }
    else if d == 11 { 'b' }
    else if d == 12 { 'c' }
    else if d == 13 { 'd' }
    else if d == 14 { 'e' }
    else { 'f' }
}

/// Appends the lowercase hex rendering of `bytes`.
pub fn push_hex(out: &mut Vec<char>, bytes: &[u8])
    ensures
        final(out)@ == old(out)@ + hex_of(bytes@),
{
    let ghost start = out@;
    let mut i: usize = 0;
    while i < bytes.len()
        invariant
            i <= bytes.len(),
            out@ == start + hex_of(bytes@.subrange(0, i as int)),
        decreases bytes.len() - i,
    {
        let b = bytes[i];
        out.push(hex_char_exec(b / 16));
        out.push(hex_char_exec(b % 16));
        proof {
            let pre = bytes@.subrange(0, i as int);
            let post = bytes@.subrange(0, i + 1);
            assert(post.drop_last() =~= pre);
            assert(post.last() == b);
        }
        i = i + 1;
        assert(out@ =~= start + hex_of(bytes@.subrange(0, i as int)));
    }
    assert(bytes@.subrange(0, bytes.len() as int) =~= bytes@);
}


/// Whether two byte strings are equal.
pub fn bytes_equal(a: &[u8], b: &[u8]) -> (res: bool)
    ensures
        res == (a@ == b@),
{
    if a.len() != b.len() {
        return false;
    }
    let mut i: usize = 0;
    while i < a.len()
        invariant
            i <= a@.len(),
            a@.len() == b@.len(),
            a@.subrange(0, i as int) == b@.subrange(0, i as int),
        decreases a@.len() - i,
    {
        if a[i] != b[i] {
            return false;
        }
        assert(a@.subrange(0, i + 1) =~= a@.subrange(0, i as int).push(a@[i as int]));
        assert(b@.subrange(0, i + 1) =~= b@.subrange(0, i as int).push(b@[i as int]));
        i = i + 1;
    }
    assert(a@ =~= a@.subrange(0, a@.len() as int));
    assert(b@ =~= b@.subrange(0, b@.len() as int));
    true
}

/// Whether `s` starts with `p`.
pub fn has_prefix(s: &Vec<char>, p: &str) -> (res: bool)
    ensures
        res == p@.is_prefix_of(s@),
{
    let pc = chars_of(p);
    if pc.len() > s.len() {
        return false;
    }
    let mut i: usize = 0;
    while i < pc.len()
        invariant
            i <= pc@.len() <= s@.len(),
            pc@ == p@,
            forall|j: int| 0 <= j < i ==> pc@[j] == s@[j],
        decreases pc@.len() - i,
    {
        if pc[i] != s[i] {
            assert(s@.subrange(0, pc@.len() as int)[i as int] == s@[i as int]);
            return false;
        }
        i = i + 1;
    }
    assert(pc@ =~= s@.subrange(0, pc@.len() as int));
    true
}

/// Whether `s` ends with `p`.
pub fn has_suffix(s: &Vec<char>, p: &str) -> (res: bool)
    ensures
        res == p@.is_suffix_of(s@),
{
    let pc = chars_of(p);
    if pc.len() > s.len() {
        return false;
    }
    let sl = s.len();
    let off = sl - pc.len();
    let mut i: usize = 0;
    while i < pc.len()
        invariant
            i <= pc@.len() <= s@.len(),
            sl == s@.len(),
            off == s@.len() - pc@.len(),
            pc@ == p@,
            forall|j: int| 0 <= j < i ==> pc@[j] == s@[off + j],
        decreases pc@.len() - i,
    {
        if pc[i] != s[off + i] {
            assert(s@.subrange(off as int, s@.len() as int)[i as int] == s@[off + i]);
            return false;
        }
        i = i + 1;
    }
    assert(pc@ =~= s@.subrange(off as int, s@.len() as int));
    true
}

} // verus!
