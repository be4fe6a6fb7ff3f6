//! Texts as sequences of characters: comparing, splitting, replacing, and the
//! digits of numbers.
use vstd::arithmetic::div_mod::{lemma_div_decreases, lemma_small_mod};
use vstd::prelude::*;

verus! {

/// `String::push` adds one character at the end.
pub assume_specification[ String::push ](s: &mut String, c: char)
    ensures
        final(s)@ == old(s)@.push(c),
;

/// The characters of a text, one by one.
pub fn chars_of(s: &str) -> (v: Vec<char>)
    ensures
        v@ == s@,
{
    let mut v: Vec<char> = Vec::new();
    for c in it: s.chars()
        invariant
            v@ == s@.take(it.index()),
            it.seq() == s@,
    {
        v.push(c);
    }
    assert(s@.take(s@.len() as int) == s@);
    v
}

/// The text made of the characters `chars[from..to]`.
pub fn text_between(chars: &[char], from: usize, to: usize) -> (s: String)
    requires
        from <= to <= chars@.len(),
    ensures
        s@ == chars@.subrange(from as int, to as int),
{
    let mut s = String::new();
    let mut i: usize = from;
    while i < to
        invariant
            from <= i <= to <= chars@.len(),
            s@ == chars@.subrange(from as int, i as int),
        decreases to - i,
    {
        s.push(chars[i]);
        i = i + 1;
        assert(chars@.subrange(from as int, i as int) == chars@.subrange(
            from as int,
            i - 1,
        ).push(chars@[i - 1]));
    }
    s
}

/// `needle` stands in `s` at position `i`.
pub open spec fn stands_at(s: Seq<char>, needle: Seq<char>, i: int) -> bool {
    0 <= i && i + needle.len() <= s.len() && s.subrange(i, i + needle.len()) == needle
}

/// `needle` stands somewhere in `s`.
pub open spec fn holds_text(s: Seq<char>, needle: Seq<char>) -> bool {
    exists|i: int| #[trigger] stands_at(s, needle, i)
}

/// Does `needle` stand in `s` at position `i`?
pub fn is_at(s: &[char], needle: &[char], i: usize) -> (r: bool)
    ensures
        r == stands_at(s@, needle@, i as int),
{
    if i > s.len() || needle.len() > s.len() - i {
        return false;
    }
    let mut j: usize = 0;
    while j < needle.len()
        invariant
            j <= needle@.len(),
            i + needle@.len() <= s@.len() <= usize::MAX,
            s@.subrange(i as int, i + j) == needle@.take(j as int),
        decreases needle@.len() - j,
    {
        if s[i + j] != needle[j] {
            proof {
                assert(s@.subrange(i as int, i + needle@.len())[j as int] == s@[i + j]);
            }
            return false;
        }
        j = j + 1;
        assert(s@.subrange(i as int, i + j) == s@.subrange(i as int, i + j - 1).push(
            s@[i + j - 1],
        ));
        assert(needle@.take(j as int) == needle@.take(j - 1).push(needle@[j - 1]));
    }
    assert(needle@.take(needle@.len() as int) == needle@);
    true
}

/// Are the two texts equal?
pub fn same_text(a: &str, b: &str) -> (r: bool)
    ensures
        r == (a@ == b@),
{
    let x = chars_of(a);
    let y = chars_of(b);
    if x.len() != y.len() {
        return false;
    }
    let r = is_at(x.as_slice(), y.as_slice(), 0);
    assert(a@.subrange(0, b@.len() as int) == a@);
    r
}

/// Does `s` begin with `prefix`?
pub fn starts_with(s: &str, prefix: &str) -> (r: bool)
    ensures
        r == prefix@.is_prefix_of(s@),
{
    let x = chars_of(s);
    let y = chars_of(prefix);
    is_at(x.as_slice(), y.as_slice(), 0)
}

/// Does `needle` stand somewhere in `s`?
pub fn contains_text(s: &str, needle: &str) -> (r: bool)
    ensures
        r == holds_text(s@, needle@),
{
    let x = chars_of(s);
    let y = chars_of(needle);
    if y.len() > x.len() {
        return false;
    }
    let last: usize = x.len() - y.len();
    let mut i: usize = 0;
    while i <= last
        invariant
            x@ == s@,
            y@ == needle@,
            last == x@.len() - y@.len(),
            i <= last + 1,
            forall|j: int| 0 <= j < i ==> !#[trigger] stands_at(s@, needle@, j),
        decreases last + 1 - i,
    {
        if is_at(x.as_slice(), y.as_slice(), i) {
            return true;
        }
        if i == last {
            return false;
        }
        i = i + 1;
    }
    false
}

/// The position of the first `c` in `s`, or the length of `s` where there is none.
pub open spec fn first_position(s: Seq<char>, c: char) -> nat
    decreases s.len(),
{
    if s.len() == 0 || s[0] == c {
        0
    } else {
        1 + first_position(s.skip(1), c)
    }
}

/// What makes a position the first one.
pub proof fn lemma_first_position(s: Seq<char>, c: char)
    ensures
        first_position(s, c) <= s.len(),
        forall|j: int| 0 <= j < first_position(s, c) ==> s[j] != c,
        first_position(s, c) < s.len() ==> s[first_position(s, c) as int] == c,
    decreases s.len(),
{
    if s.len() != 0 && s[0] != c {
        lemma_first_position(s.skip(1), c);
        assert forall|j: int| 0 <= j < first_position(s, c) implies s[j] != c by {
            if j > 0 {
                assert(s[j] == s.skip(1)[j - 1]);
            }
        }
    }
}

/// Finds the first `c` at or after `from`.
pub fn find_char(s: &[char], from: usize, c: char) -> (p: usize)
    requires
        from <= s@.len(),
    ensures
        from <= p <= s@.len(),
        p == from + first_position(s@.skip(from as int), c),
{
    let mut i: usize = from;
    while i < s.len() && s[i] != c
        invariant
            from <= i <= s@.len(),
            forall|j: int| from <= j < i ==> s@[j] != c,
        decreases s@.len() - i,
    {
        i = i + 1;
    }
    proof {
        let t = s@.skip(from as int);
        let p = first_position(t, c) as int;
        lemma_first_position(t, c);
        if p < i - from {
            assert(t[p] == s@[from + p]);
        }
        if p > i - from {
            assert(t[i - from] == s@[i as int]);
        }
    }
    i
}

/// The pieces of `s` between the separators.
pub open spec fn split(s: Seq<char>, sep: char) -> Seq<Seq<char>>
    decreases s.len(),
{
    let p = first_position(s, sep) as int;
    if p >= s.len() {
        seq![s]
    } else {
        seq![s.take(p)] + split(s.skip(p + 1), sep)
    }
}

/// The texts that a list of strings holds.
pub open spec fn texts(v: Seq<String>) -> Seq<Seq<char>> {
    Seq::new(v.len(), |i: int| v[i]@)
}

/// Splits `s` at each `sep`.
pub fn split_on(s: &str, sep: char) -> (v: Vec<String>)
    ensures
        texts(v@) == split(s@, sep),
        v@.len() >= 1,
{
    let x = chars_of(s);
    let mut v: Vec<String> = Vec::new();
    let mut from: usize = 0;
    assert(s@.skip(0) == s@);
    assert(texts(v@) + split(s@, sep) == split(s@, sep));
    loop
        invariant
            x@ == s@,
            from <= x@.len(),
            split(s@, sep) == texts(v@) + split(s@.skip(from as int), sep),
        decreases x@.len() - from,
    {
        let p = find_char(x.as_slice(), from, sep);
        let ghost before = v@;
        let ghost rest = s@.skip(from as int);
        proof {
            lemma_first_position(rest, sep);
        }
        v.push(text_between(x.as_slice(), from, p));
        assert(texts(v@) == texts(before).push(v@.last()@));
        if p == x.len() {
            assert(v@.last()@ == rest);
            assert(split(s@, sep) == texts(v@));
            return v;
        }
        assert(v@.last()@ == rest.take(p - from));
        assert(rest.skip(p - from + 1) == s@.skip(p + 1));
        assert(split(rest, sep) == seq![rest.take(p - from)] + split(s@.skip(p + 1), sep));
        assert(split(s@, sep) == texts(v@) + split(s@.skip(p + 1), sep));
        from = p + 1;
    }
}

/// `s` without the `c`s at its end.
pub open spec fn without_trailing(s: Seq<char>, c: char) -> Seq<char>
    decreases s.len(),
{
    if s.len() > 0 && s.last() == c {
        without_trailing(s.drop_last(), c)
    } else {
        s
    }
}

/// Cuts the `c`s at the end of `s` off.
pub fn trim_trailing(s: &str, c: char) -> (r: String)
    ensures
        r@ == without_trailing(s@, c),
{
    let x = chars_of(s);
    let mut n: usize = x.len();
    assert(s@.take(n as int) == s@);
    while n > 0 && x[n - 1] == c
        invariant
            x@ == s@,
            n <= x@.len(),
            without_trailing(s@, c) == without_trailing(s@.take(n as int), c),
        decreases n,
    {
        assert(s@.take(n as int).drop_last() == s@.take(n - 1));
        n = n - 1;
    }
    assert(n > 0 ==> s@.take(n as int).last() == s@[n - 1]);
    text_between(x.as_slice(), 0, n)
}

/// `s` with each `from`, found from the left and not overlapping, replaced by `to`.
pub open spec fn replaced(s: Seq<char>, from: Seq<char>, to: Seq<char>) -> Seq<char>
    decreases s.len(),
{
    if from.len() == 0 || s.len() < from.len() {
        s
    } else if s.take(from.len() as int) == from {
        to + replaced(s.skip(from.len() as int), from, to)
    } else {
        seq![s[0]] + replaced(s.skip(1), from, to)
    }
}

/// Replaces each `from` in `s` by `to`.
pub fn replace_all(s: &str, from: &str, to: &str) -> (r: String)
    requires
        from@.len() > 0,
    ensures
        r@ == replaced(s@, from@, to@),
{
    let x = chars_of(s);
    let pattern = chars_of(from);
    let mut r = String::new();
    let mut i: usize = 0;
    assert(s@.skip(0) == s@);
    assert(r@ + replaced(s@, from@, to@) == replaced(s@, from@, to@));
    while i < x.len()
        invariant
            x@ == s@,
            pattern@ == from@,
            from@.len() > 0,
            i <= x@.len(),
            replaced(s@, from@, to@) == r@ + replaced(s@.skip(i as int), from@, to@),
        decreases x@.len() - i,
    {
        let ghost rest = s@.skip(i as int);
        let ghost before = r@;
        if is_at(x.as_slice(), pattern.as_slice(), i) {
            assert(rest.take(from@.len() as int) == from@);
            r.append(to);
            i = i + pattern.len();
            assert(rest.skip(from@.len() as int) == s@.skip(i as int));
            assert(before + (to@ + replaced(s@.skip(i as int), from@, to@)) == r@ + replaced(
                s@.skip(i as int),
                from@,
                to@,
            ));
        } else {
            assert(rest.len() >= from@.len() ==> s@.subrange(i as int, i + from@.len())
                == rest.take(from@.len() as int));
            let ghost step = replaced(s@.skip(i + 1), from@, to@);
            assert(rest.skip(1) == s@.skip(i + 1));
            assert(rest.len() < from@.len() ==> rest == seq![rest[0]] + rest.skip(1));
            r.push(x[i]);
            i = i + 1;
            assert(before + (seq![rest[0]] + step) == r@ + step);
        }
    }
    assert(s@.skip(i as int).len() == 0);
    assert(r@ + s@.skip(i as int) == r@);
    r
}

/// The character of a digit below sixteen.
pub open spec fn digit_char(d: nat) -> char {
    if d < 10 {
        (48 + d) as char
    } else {
        (87 + d) as char
    }
}

/// `n` written in base `base`, without leading zeros.
pub open spec fn radix(n: nat, base: nat) -> Seq<char>
    decreases n,
{
    if base < 2 || n < base {
        seq![digit_char(n)]
    } else {
        proof {
            lemma_div_decreases(n as int, base as int);
        }
        radix(n / base, base).push(digit_char(n % base))
    }
}

/// Writes `n` in base `base`.
pub fn radix_text(n: u128, base: u128) -> (s: String)
    requires
        2 <= base <= 16,
    ensures
        s@ == radix(n as nat, base as nat),
    decreases n,
{
    let d: u8 = (n % base) as u8;
    let c: char = if d < 10 {
        (48 + d) as char
    } else {
        (87 + d) as char
    };
    if n < base {
        proof {
            lemma_small_mod(n as nat, base as nat);
        }
        let mut s = String::new();
        s.push(c);
        assert(s@ == seq![digit_char(n as nat)]);
        s
    } else {
        proof {
            lemma_div_decreases(n as int, base as int);
        }
        let mut s = radix_text(n / base, base);
        s.push(c);
        s
    }
}

/// Is the character one of the ten decimal digits?
pub open spec fn is_digit(c: char) -> bool {
    '0' <= c <= '9'
}

/// Nothing but decimal digits.
pub open spec fn all_digits(s: Seq<char>) -> bool {
    forall|i: int| 0 <= i < s.len() ==> is_digit(#[trigger] s[i])
}

/// The number that decimal digits write.
pub open spec fn digits_value(s: Seq<char>) -> nat
    decreases s.len(),
{
    if s.len() == 0 {
        0
    } else {
        digits_value(s.drop_last()) * 10 + (s.last() as nat - 48) as nat
    }
}

/// The smaller of two numbers.
pub open spec fn least(a: int, b: int) -> int {
    if a <= b {
        a
    } else {
        b
    }
}

/// Reads `s[from..to]` as decimal digits, cut off at `cap`.
pub fn read_digits(s: &[char], from: usize, to: usize, cap: u128) -> (r: Option<u128>)
    requires
        from <= to <= s@.len(),
        cap <= 0x100_0000_0000_0000_0000_0000_0000,
    ensures
        r is Some <==> all_digits(s@.subrange(from as int, to as int)),
        r matches Some(v) ==> v == least(
            digits_value(s@.subrange(from as int, to as int)) as int,
            cap as int,
        ),
{
    let mut v: u128 = 0;
    let mut i: usize = from;
    let ghost piece = s@.subrange(from as int, to as int);
    assert(piece.take(0).len() == 0);
    while i < to
        invariant
            from <= i <= to <= s@.len(),
            cap <= 0x100_0000_0000_0000_0000_0000_0000,
            piece == s@.subrange(from as int, to as int),
            all_digits(piece.take(i - from)),
            v == least(digits_value(piece.take(i - from)) as int, cap as int),
        decreases to - i,
    {
        let c = s[i];
        assert(piece[i - from] == c);
        if c < '0' || c > '9' {
            return None;
        }
        let next: u128 = v * 10 + (c as u128 - 48);
        v = if next < cap {
            next
        } else {
            cap
        };
        i = i + 1;
        proof {
            let longer = piece.take(i - from);
            assert(longer.drop_last() == piece.take(i - 1 - from));
            assert(longer.last() == c);
            assert forall|j: int| 0 <= j < longer.len() implies is_digit(#[trigger] longer[j]) by {
                if j < i - 1 - from {
                    assert(longer[j] == piece.take(i - 1 - from)[j]);
                }
            }
        }
    }
    assert(piece.take(to - from) == piece);
    Some(v)
}

/// The power of ten `10^m`.
pub open spec fn ten_to(m: nat) -> nat
    decreases m,
{
    if m == 0 {
        1
    } else {
        10 * ten_to((m - 1) as nat)
    }
}

/// Written in base ten, a number below `10^m` has at most `m` digits, and reading
/// those digits gives the number back.
pub proof fn lemma_radix_ten(n: nat, m: nat)
    requires
        n < ten_to(m),
        m >= 1,
    ensures
        1 <= radix(n, 10).len() <= m,
        all_digits(radix(n, 10)),
        digits_value(radix(n, 10)) == n,
    decreases n,
{
    let s = radix(n, 10);
    if n < 10 {
        assert(s.drop_last().len() == 0);
        assert(s.last() == digit_char(n));
        assert(digits_value(s.drop_last()) == 0);
    } else {
        if m == 1 {
            assert(ten_to(1) == 10) by {
                reveal_with_fuel(ten_to, 2);
            }
        }
        lemma_radix_ten(n / 10, (m - 1) as nat);
        let front = radix(n / 10, 10);
        assert(s.drop_last() == front);
        assert(s.last() == digit_char(n % 10));
        assert forall|i: int| 0 <= i < s.len() implies is_digit(#[trigger] s[i]) by {
            if i < front.len() {
                assert(s[i] == front[i]);
            }
        }
    }
}

/// The `i32` that `s` writes: a sign or none, then digits.
pub open spec fn i32_of(s: Seq<char>) -> Option<i32> {
    let signed = s.len() > 0 && (s[0] == '-' || s[0] == '+');
    let body = if signed {
        s.skip(1)
    } else {
        s
    };
    let v = if signed && s[0] == '-' {
        -(digits_value(body) as int)
    } else {
        digits_value(body) as int
    };
    if body.len() > 0 && all_digits(body) && i32::MIN <= v <= i32::MAX {
        Some(v as i32)
    } else {
        None
    }
}

/// Reads `s[from..]` as an `i32`.
pub fn read_i32(s: &[char], from: usize) -> (r: Option<i32>)
    requires
        from <= s@.len(),
    ensures
        r == i32_of(s@.skip(from as int)),
{
    let ghost whole = s@.skip(from as int);
    let signed = from < s.len() && (s[from] == '-' || s[from] == '+');
    let start: usize = if signed {
        from + 1
    } else {
        from
    };
    let ghost body = if signed {
        whole.skip(1)
    } else {
        whole
    };
    assert(s@.subrange(start as int, s@.len() as int) == body);
    if start == s.len() {
        return None;
    }
    let magnitude = match read_digits(s, start, s.len(), 0x1_0000_0000) {
        Some(v) => v as i64,
        None => { return None; },
    };
    let v: i64 = if signed && s[from] == '-' {
        -magnitude
    } else {
        magnitude
    };
    if v < i32::MIN as i64 || v > i32::MAX as i64 {
        return None;
    }
    Some(v as i32)
}

/// The pieces of a text: none holds the separator, and with a separator between each two
/// they make the text again.
pub proof fn law_pieces_make_the_text(s: Seq<char>, sep: char)
    ensures
        split(s, sep).len() >= 1,
        with_between(split(s, sep), sep) == s,
        forall|i: int, j: int|
            0 <= i < split(s, sep).len() && 0 <= j < split(s, sep)[i].len() ==> #[trigger] split(
                s,
                sep,
            )[i][j] != sep,
    decreases s.len(),
{
    let p = first_position(s, sep) as int;
    lemma_first_position(s, sep);
    let parts = split(s, sep);
    if p >= s.len() {
        assert(parts[0] == s);
        assert(parts.skip(1).len() == 0);
    } else {
        let rest = split(s.skip(p + 1), sep);
        law_pieces_make_the_text(s.skip(p + 1), sep);
        assert(parts.skip(1) == rest);
        assert(parts[0] == s.take(p));
        assert(s.take(p) + seq![sep] + s.skip(p + 1) == s);
        assert forall|i: int, j: int|
            0 <= i < parts.len() && 0 <= j < parts[i].len() implies #[trigger] parts[i][j] != sep by {
            if i > 0 {
                assert(parts[i] == rest[i - 1]);
            }
        }
    }
}

/// Texts, one behind the other, with a character between each two.
pub open spec fn with_between(parts: Seq<Seq<char>>, sep: char) -> Seq<char>
    decreases parts.len(),
{
    if parts.len() == 0 {
        Seq::empty()
    } else if parts.len() == 1 {
        parts[0]
    } else {
        parts[0] + seq![sep] + with_between(parts.skip(1), sep)
    }
}

/// A text loses the characters at its end that are `c`, and nothing else.
pub proof fn law_trimmed_text(s: Seq<char>, c: char)
    ensures
        without_trailing(s, c).len() <= s.len(),
        without_trailing(s, c) == s.take(without_trailing(s, c).len() as int),
        without_trailing(s, c).len() > 0 ==> without_trailing(s, c).last() != c,
        forall|i: int| without_trailing(s, c).len() <= i < s.len() ==> s[i] == c,
    decreases s.len(),
{
    if s.len() > 0 && s.last() == c {
        let front = s.drop_last();
        law_trimmed_text(front, c);
        assert forall|i: int| without_trailing(s, c).len() <= i < s.len() implies s[i] == c by {
            if i < front.len() {
                assert(front[i] == s[i]);
            }
        }
    } else {
        assert(s.take(s.len() as int) == s);
    }
}

/// Replacing: where the pattern stands it is replaced, and elsewhere the text stays.
pub proof fn law_replaced_text(s: Seq<char>, from: Seq<char>, to: Seq<char>)
    requires
        from.len() > 0,
    ensures
        replaced(from + s, from, to) == to + replaced(s, from, to),
        s.len() < from.len() ==> replaced(s, from, to) == s,
        s.len() >= from.len() && s.take(from.len() as int) != from ==> replaced(s, from, to)
            == seq![s[0]] + replaced(s.skip(1), from, to),
{
    assert((from + s).take(from.len() as int) == from);
    assert((from + s).skip(from.len() as int) == s);
}

/// Digits make a number: each one counts tenfold what stands behind it.
pub proof fn law_digits_make_a_number(s: Seq<char>, c: char)
    requires
        '0' <= c <= '9',
    ensures
        digits_value(Seq::empty()) == 0,
        digits_value(s.push(c)) == 10 * digits_value(s) + (c as int - '0' as int),
        is_digit(c),
{
    assert(s.push(c).drop_last() == s);
}

/// A number written in base ten is read back, has only digits, and no zero before others.
pub proof fn law_number_is_read_back(n: nat)
    ensures
        digits_value(radix(n, 10)) == n,
        all_digits(radix(n, 10)),
        radix(n, 10).len() >= 1,
        radix(n, 10).len() > 1 ==> radix(n, 10)[0] != '0',
    decreases n,
{
    let s = radix(n, 10);
    if n >= 10 {
        law_number_is_read_back(n / 10);
        let front = radix(n / 10, 10);
        assert(s.drop_last() == front);
        assert(s.last() == digit_char(n % 10));
        assert forall|i: int| 0 <= i < s.len() implies is_digit(#[trigger] s[i]) by {
            if i < front.len() {
                assert(s[i] == front[i]);
            }
        }
        assert(s[0] == front[0]);
        if front.len() == 1 {
            assert(n / 10 < 10) by {
                if n / 10 >= 10 {
                    law_number_is_read_back(n / 10 / 10);
                }
            }
        }
    } else {
        assert(s.drop_last() =~= Seq::empty());
        assert(digits_value(s.drop_last()) == 0);
        assert(s.last() == digit_char(n));
    }
}

/// A needle is in a text where the characters are there, one by one.
pub proof fn law_text_is_found(s: Seq<char>, needle: Seq<char>)
    ensures
        holds_text(s, needle) <==> exists|i: int| #![trigger s.skip(i)]
            0 <= i <= s.len() - needle.len() && s.skip(i).take(needle.len() as int) == needle,
{
    if holds_text(s, needle) {
        let i = choose|i: int| #[trigger] stands_at(s, needle, i);
        assert(s.skip(i).take(needle.len() as int) =~= s.subrange(i, i + needle.len()));
    }
    if exists|i: int| #![trigger s.skip(i)]
        0 <= i <= s.len() - needle.len() && s.skip(i).take(needle.len() as int) == needle {
        let i = choose|i: int| #![trigger s.skip(i)]
            0 <= i <= s.len() - needle.len() && s.skip(i).take(needle.len() as int) == needle;
        assert(s.skip(i).take(needle.len() as int) =~= s.subrange(i, i + needle.len()));
        assert(stands_at(s, needle, i));
    }
}

/// A signed number that fits is read; anything else is not.
pub proof fn law_integer_is_read(digits: Seq<char>)
    requires
        digits.len() > 0,
        forall|i: int| 0 <= i < digits.len() ==> '0' <= #[trigger] digits[i] <= '9',
    ensures
        digits_value(digits) <= 2_147_483_647 ==> i32_of(digits) == Some(
            digits_value(digits) as i32,
        ) && i32_of(seq!['+'] + digits) == Some(digits_value(digits) as i32) && i32_of(
            seq!['-'] + digits,
        ) == Some((-digits_value(digits)) as i32),
        digits_value(digits) > 2_147_483_648 ==> i32_of(digits) is None && i32_of(
            seq!['-'] + digits,
        ) is None,
        i32_of(Seq::empty()) is None,
{
    assert forall|i: int| 0 <= i < digits.len() implies is_digit(#[trigger] digits[i]) by {}
    assert((seq!['+'] + digits).skip(1) == digits);
    assert((seq!['-'] + digits).skip(1) == digits);
    assert('0' <= digits[0]);
}

}
