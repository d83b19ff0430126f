//! Numbers written out as text.

use vstd::prelude::*;
use vstd::slice::slice_subrange;

verus! {

/// The hexadecimal digit of `d < 16`.
pub open spec fn digit(d: int) -> Seq<char> {
    if d == 0 {
        "0"@
    } else if d == 1 {
        "1"@
    } else if d == 2 {
        "2"@
    } else if d == 3 {
        "3"@
    } else if d == 4 {
        "4"@
    } else if d == 5 {
        "5"@
    } else if d == 6 {
        "6"@
    } else if d == 7 {
        "7"@
    } else if d == 8 {
        "8"@
    } else if d == 9 {
        "9"@
    } else if d == 10 {
        "A"@
    } else if d == 11 {
        "B"@
    } else if d == 12 {
        "C"@
    } else if d == 13 {
        "D"@
    } else if d == 14 {
        "E"@
    } else {
        "F"@
    }
}

/// The decimal numeral of `n`.
pub open spec fn decimal(n: int) -> Seq<char>
    decreases n,
{
    if n < 10 {
        digit(n)
    } else {
        decimal(n / 10) + digit(n % 10)
    }
}

/// The decimal numeral of `n` with zeros in front up to `width` digits.
pub open spec fn padded(n: int, width: int) -> Seq<char>
    decreases width,
{
    if width <= 1 {
        decimal(n)
    } else {
        padded(n / 10, width - 1) + digit(n % 10)
    }
}

/// The two hexadecimal digits of a byte.
pub open spec fn hex(b: int) -> Seq<char> {
    digit(b / 16) + digit(b % 16)
}

fn digit_text(d: u8) -> (r: &'static str)
    requires
        d < 16,
    ensures
        r@ == digit(d as int),
{
    match d {
        0 => "0",
        1 => "1",
        2 => "2",
        3 => "3",
        4 => "4",
        5 => "5",
        6 => "6",
        7 => "7",
        8 => "8",
        9 => "9",
        10 => "A",
        11 => "B",
        12 => "C",
        13 => "D",
        14 => "E",
        _ => "F",
    }
}

/// Appends the decimal numeral of `n`.
pub fn push_decimal(out: &mut String, n: u64)
    ensures
        final(out)@ == old(out)@ + decimal(n as int),
    decreases n,
{
    let ghost before = out@;
    if n >= 10 {
        push_decimal(out, n / 10);
    }
    out.append(digit_text((n % 10) as u8));
    assert(out@ =~= before + decimal(n as int));
}

/// Appends the decimal numeral of `n` with zeros in front up to `width` digits.
pub fn push_padded(out: &mut String, n: u64, width: u32)
    ensures
        final(out)@ == old(out)@ + padded(n as int, width as int),
    decreases width,
{
    let ghost before = out@;
    if width <= 1 {
        push_decimal(out, n);
    } else {
        push_padded(out, n / 10, width - 1);
        out.append(digit_text((n % 10) as u8));
        assert(out@ =~= before + padded(n as int, width as int));
    }
}

/// Appends the two hexadecimal digits of a byte.
pub fn push_hex(out: &mut String, b: u8)
    ensures
        final(out)@ == old(out)@ + hex(b as int),
{
    let ghost before = out@;
    out.append(digit_text(b / 16));
    out.append(digit_text(b % 16));
    assert(out@ =~= before + hex(b as int));
}

/// Whether two strings are the same.
pub fn same(a: &str, b: &str) -> (r: bool)
    ensures
        r == (a@ == b@),
{
    let x: String = a.to_owned();
    let y: String = b.to_owned();
    x == y
}

/// What `str::to_lowercase` makes of a text.
pub uninterp spec fn lowercase(s: Seq<char>) -> Seq<char>;

/// What `str::to_uppercase` makes of a text.
pub uninterp spec fn uppercase(s: Seq<char>) -> Seq<char>;

/// The letters of the ASCII alphabet in lower case, all else as it is.
pub open spec fn ascii_lower(s: Seq<char>) -> Seq<char> {
    Seq::new(
        s.len(),
        |i: int|
            if 'A' <= s[i] <= 'Z' {
                (s[i] as u32 + 32) as char
            } else {
                s[i]
            },
    )
}

/// Calls `str::to_lowercase`. The result depends on the text alone; where all of it is ASCII, the
/// capital letters become small ones and nothing else changes.
#[verifier::external_body]
pub(crate) fn to_lower(s: &str) -> (r: String)
    ensures
        r@ == lowercase(s@),
        vstd::utf8::is_ascii_chars(s@) ==> r@ == ascii_lower(s@),
{
    s.to_lowercase()
}

/// The letters of the ASCII alphabet in upper case, all else as it is.
pub open spec fn ascii_upper(s: Seq<char>) -> Seq<char> {
    Seq::new(
        s.len(),
        |i: int|
            if 'a' <= s[i] <= 'z' {
                (s[i] as u32 - 32) as char
            } else {
                s[i]
            },
    )
}

/// Calls `str::to_uppercase`. The result depends on the text alone; where all of it is ASCII, the
/// small letters become capital ones and nothing else changes.
#[verifier::external_body]
pub(crate) fn to_upper(s: &str) -> (r: String)
    ensures
        r@ == uppercase(s@),
        vstd::utf8::is_ascii_chars(s@) ==> r@ == ascii_upper(s@),
{
    s.to_uppercase()
}

/// Calls `String::from_iter` on a list of characters: they make up the text, in their order.
#[verifier::external_body]
pub(crate) fn from_chars(chars: &[char]) -> (r: String)
    ensures
        r@ == chars@,
{
    String::from_iter(chars)
}

/// The characters of a text.
pub fn to_chars(s: &str) -> (out: Vec<char>)
    ensures
        out@ == s@,
{
    let mut out: Vec<char> = Vec::new();
    for c in it: s.chars()
        invariant
            it.seq() == s@,
            out@ == s@.subrange(0, it.index()),
    {
        out.push(c);
        assert(s@.subrange(0, it.index() + 1) =~= s@.subrange(0, it.index()).push(c));
    }
    assert(s@.subrange(0, s@.len() as int) =~= s@);
    out
}

/// The white space of Unicode.
pub open spec fn is_space(c: char) -> bool {
    let n = c as int;
    ||| 0x09 <= n <= 0x0D
    ||| n == 0x20 || n == 0x85 || n == 0xA0 || n == 0x1680
    ||| 0x2000 <= n <= 0x200A
    ||| n == 0x2028 || n == 0x2029 || n == 0x202F || n == 0x205F || n == 0x3000
}

/// A text without the white space at its ends.
pub open spec fn trimmed(s: Seq<char>) -> Seq<char>
    decreases s.len(),
{
    if s.len() > 0 && is_space(s.first()) {
        trimmed(s.drop_first())
    } else if s.len() > 0 && is_space(s.last()) {
        trimmed(s.drop_last())
    } else {
        s
    }
}

fn space(c: char) -> (r: bool)
    ensures
        r == is_space(c),
{
    let n: u32 = c as u32;
    (0x09 <= n && n <= 0x0D) || n == 0x20 || n == 0x85 || n == 0xA0 || n == 0x1680 || (0x2000 <= n && n
        <= 0x200A) || n == 0x2028 || n == 0x2029 || n == 0x202F || n == 0x205F || n == 0x3000
}

/// A text without the white space at its ends.
pub fn trim(s: &[char]) -> (r: &[char])
    ensures
        r@ == trimmed(s@),
{
    let mut lo: usize = 0;
    let mut hi: usize = s.len();
    assert(s@.subrange(0, s@.len() as int) =~= s@);
    while lo < hi && space(s[lo])
        invariant
            lo <= hi == s@.len(),
            trimmed(s@.subrange(lo as int, hi as int)) == trimmed(s@),
        decreases hi - lo,
    {
        assert(s@.subrange(lo as int, hi as int).drop_first() =~= s@.subrange(lo + 1, hi as int));
        lo = lo + 1;
    }
    while lo < hi && space(s[hi - 1])
        invariant
            lo <= hi <= s@.len(),
            lo < hi ==> !is_space(s@[lo as int]),
            trimmed(s@.subrange(lo as int, hi as int)) == trimmed(s@),
        decreases hi - lo,
    {
        assert(s@.subrange(lo as int, hi as int).drop_last() =~= s@.subrange(lo as int, hi - 1));
        hi = hi - 1;
    }
    slice_subrange(s, lo, hi)
}

/// The parts of a text between the occurrences of a character.
pub open spec fn pieces(s: Seq<char>, at: char) -> Seq<Seq<char>>
    decreases s.len(),
{
    if s.len() == 0 {
        seq![s]
    } else {
        let p = pieces(s.drop_last(), at);
        if s.last() == at {
            p.push(Seq::empty())
        } else {
            p.drop_last().push(p.last().push(s.last()))
        }
    }
}

/// The texts of a list.
pub open spec fn views(list: Seq<Vec<char>>) -> Seq<Seq<char>> {
    Seq::new(list.len(), |i: int| list[i]@)
}

/// The parts of a text between the occurrences of a character.
pub fn split(s: &[char], at: char) -> (out: Vec<Vec<char>>)
    ensures
        views(out@) == pieces(s@, at),
        out@.len() > 0,
{
    let mut out: Vec<Vec<char>> = Vec::new();
    let mut part: Vec<char> = Vec::new();
    let mut i: usize = 0;
    assert(views(out@).push(part@) =~= pieces(s@.subrange(0, 0), at)) by {
        assert(part@ =~= s@.subrange(0, 0));
    }
    while i < s.len()
        invariant
            i <= s@.len(),
            views(out@).push(part@) == pieces(s@.subrange(0, i as int), at),
        decreases s@.len() - i,
    {
        let ghost before = views(out@).push(part@);
        let ghost done = s@.subrange(0, i + 1);
        assert(done.drop_last() =~= s@.subrange(0, i as int));
        assert(before.drop_last() =~= views(out@));
        if s[i] == at {
            out.push(part);
            part = Vec::new();
            assert(views(out@) =~= before);
            assert(part@ =~= Seq::<char>::empty());
        } else {
            part.push(s[i]);
        }
        i = i + 1;
    }
    assert(s@.subrange(0, s@.len() as int) =~= s@);
    let ghost before = views(out@).push(part@);
    out.push(part);
    assert(views(out@) =~= before);
    out
}

/// Where a character first occurs in a text; the length if it does not.
pub open spec fn place(s: Seq<char>, c: char) -> int
    decreases s.len(),
{
    if s.len() == 0 || s.first() == c {
        0
    } else {
        1 + place(s.drop_first(), c)
    }
}

/// Where a character first occurs in a text; the length if it does not.
pub fn find(s: &[char], c: char) -> (r: usize)
    ensures
        r == place(s@, c),
        r <= s@.len(),
        r < s@.len() ==> s@[r as int] == c,
{
    let mut i: usize = 0;
    assert(s@.subrange(0, s@.len() as int) =~= s@);
    while i < s.len() && s[i] != c
        invariant
            i <= s@.len(),
            place(s@, c) == i + place(s@.subrange(i as int, s@.len() as int), c),
        decreases s@.len() - i,
    {
        assert(s@.subrange(i as int, s@.len() as int).drop_first() =~= s@.subrange(
            i + 1,
            s@.len() as int,
        ));
        i = i + 1;
    }
    i
}

/// The number that decimal digits stand for.
pub open spec fn digits_value(s: Seq<char>) -> int
    decreases s.len(),
{
    if s.len() == 0 {
        0
    } else {
        digits_value(s.drop_last()) * 10 + (s.last() as int - '0' as int)
    }
}

/// A character is a decimal digit.
pub open spec fn is_digit(c: char) -> bool {
    '0' <= c <= '9'
}

/// The digits of a numeral that may have a plus sign.
pub open spec fn unsigned_part(s: Seq<char>) -> Seq<char> {
    if s.len() > 0 && s.first() == '+' {
        s.drop_first()
    } else {
        s
    }
}

/// The machine number that a decimal numeral stands for, if it is one and fits.
pub open spec fn number(s: Seq<char>) -> Option<int> {
    let d = unsigned_part(s);
    if d.len() > 0 && (forall|i: int| 0 <= i < d.len() ==> is_digit(#[trigger] d[i])) && digits_value(
        d,
    ) <= usize::MAX {
        Some(digits_value(d))
    } else {
        None
    }
}

proof fn lemma_digits_grow(d: Seq<char>, i: int)
    requires
        0 <= i <= d.len(),
        forall|k: int| 0 <= k < d.len() ==> is_digit(#[trigger] d[k]),
    ensures
        0 <= digits_value(d.subrange(0, i)) <= digits_value(d),
    decreases d.len(),
{
    if i == d.len() {
        assert(d.subrange(0, i) =~= d);
        if d.len() > 0 {
            lemma_digits_grow(d.drop_last(), d.len() - 1);
            assert(d.drop_last().subrange(0, d.len() - 1) =~= d.drop_last());
            assert(is_digit(d[d.len() - 1]));
        }
    } else {
        lemma_digits_grow(d.drop_last(), i);
        assert(d.drop_last().subrange(0, i) =~= d.subrange(0, i));
        assert(is_digit(d[d.len() - 1]));
    }
}

/// The machine number that a decimal numeral stands for, if it is one and fits.
pub fn parse_number(s: &[char]) -> (r: Option<usize>)
    ensures
        match r {
            Some(n) => number(s@) == Some(n as int),
            None => number(s@) is None,
        },
{
    let start: usize = if s.len() > 0 && s[0] == '+' {
        1
    } else {
        0
    };
    let ghost d = unsigned_part(s@);
    assert(d =~= s@.subrange(start as int, s@.len() as int));
    if start == s.len() {
        return None;
    }
    let mut i: usize = start;
    let mut value: usize = 0;
    assert(d.subrange(0, 0) =~= Seq::<char>::empty());
    while i < s.len()
        invariant
            start <= i <= s@.len(),
            d == unsigned_part(s@),
            d == s@.subrange(start as int, s@.len() as int),
            forall|k: int| 0 <= k < i - start ==> is_digit(#[trigger] d[k]),
            value == digits_value(d.subrange(0, i - start)),
        decreases s@.len() - i,
    {
        let c: char = s[i];
        assert(c == d[i - start]);
        if c < '0' || c > '9' {
            return None;
        }
        let digit: usize = (c as u32 - '0' as u32) as usize;
        proof {
            assert(d.subrange(0, i - start + 1).drop_last() =~= d.subrange(0, i - start));
            if forall|k: int| 0 <= k < d.len() ==> is_digit(#[trigger] d[k]) {
                lemma_digits_grow(d, i - start + 1);
            }
        }
        value = match value.checked_mul(10) {
            Some(v) => match v.checked_add(digit) {
                Some(w) => w,
                None => return None,
            },
            None => return None,
        };
        i = i + 1;
    }
    assert(d.subrange(0, d.len() as int) =~= d);
    Some(value)
}

/// A text occurs in another.
pub open spec fn occurs(needle: Seq<char>, text: Seq<char>) -> bool {
    exists|i: int|
        0 <= i <= text.len() - needle.len() && #[trigger] text.subrange(i, i + needle.len()) == needle
}

/// Whether a text occurs in another.
pub fn contains(text: &[char], needle: &[char]) -> (r: bool)
    ensures
        r == occurs(needle@, text@),
{
    if needle.len() > text.len() {
        return false;
    }
    let mut i: usize = 0;
    assert(text@.len() == text.len());
    while i <= text.len() - needle.len()
        invariant
            needle@.len() <= text@.len() <= usize::MAX,
            i <= text@.len() - needle@.len() + 1,
            forall|k: int|
                0 <= k < i ==> #[trigger] text@.subrange(k, k + needle@.len()) != needle@,
        decreases text@.len() + 1 - i,
    {
        let mut j: usize = 0;
        while j < needle.len() && text[i + j] == needle[j]
            invariant
                j <= needle@.len(),
                i + needle@.len() <= text@.len() <= usize::MAX,
                forall|k: int| 0 <= k < j ==> text@[i + k] == needle@[k],
            decreases needle@.len() - j,
        {
            j = j + 1;
        }
        if j == needle.len() {
            assert(text@.subrange(i as int, i + needle@.len()) =~= needle@);
            return true;
        }
        assert(text@.subrange(i as int, i + needle@.len())[j as int] != needle@[j as int]);
        i = i + 1;
    }
    false
}

/// The code of a character, that of the small letter for an ASCII capital.
pub open spec fn folded(c: char) -> int {
    if 'A' <= c <= 'Z' {
        c as int + 32
    } else {
        c as int
    }
}

/// Two texts differ at most in the case of ASCII letters.
pub open spec fn alike(a: Seq<char>, b: Seq<char>) -> bool {
    &&& a.len() == b.len()
    &&& forall|i: int| 0 <= i < a.len() ==> folded(#[trigger] a[i]) == folded(b[i])
}

fn fold(c: char) -> (r: u32)
    ensures
        r == folded(c),
{
    if 'A' <= c && c <= 'Z' {
        c as u32 + 32
    } else {
        c as u32
    }
}

/// Whether two texts differ at most in the case of ASCII letters.
pub fn same_ignoring_case(a: &[char], b: &[char]) -> (r: bool)
    ensures
        r == alike(a@, b@),
{
    if a.len() != b.len() {
        return false;
    }
    let mut i: usize = 0;
    while i < a.len()
        invariant
            i <= a@.len() == b@.len(),
            forall|k: int| 0 <= k < i ==> folded(#[trigger] a@[k]) == folded(b@[k]),
        decreases a@.len() - i,
    {
        if fold(a[i]) != fold(b[i]) {
            return false;
        }
        i = i + 1;
    }
    true
}

/// The digits: 0 to 9 by their order, then the letters from A on.
pub proof fn law_digits(d: int)
    requires
        0 <= d < 16,
    ensures
        digit(d).len() == 1,
        digit(d)[0] as int == if d < 10 {
            '0' as int + d
        } else {
            'A' as int + d - 10
        },
        hex(16 * d + 15) == digit(d) + digit(15),
        hex(d) == digit(0) + digit(d),
        hex(d).len() == 2,
{
    reveal_strlit("0");
    reveal_strlit("1");
    reveal_strlit("2");
    reveal_strlit("3");
    reveal_strlit("4");
    reveal_strlit("5");
    reveal_strlit("6");
    reveal_strlit("7");
    reveal_strlit("8");
    reveal_strlit("9");
    reveal_strlit("A");
    reveal_strlit("B");
    reveal_strlit("C");
    reveal_strlit("D");
    reveal_strlit("E");
    reveal_strlit("F");
}

/// The text consists of decimal digits.
pub open spec fn all_digits(s: Seq<char>) -> bool {
    forall|i: int| 0 <= i < s.len() ==> is_digit(#[trigger] s[i])
}

/// A decimal numeral is read as the number that it was made of, and has no needless zero in front.
pub proof fn law_decimal_read(n: int)
    requires
        0 <= n,
    ensures
        decimal(n).len() > 0,
        all_digits(decimal(n)),
        digits_value(decimal(n)) == n,
        n > 0 ==> decimal(n)[0] != '0',
        n <= usize::MAX ==> number(decimal(n)) == Some(n),
        n <= usize::MAX ==> number(seq!['+'] + decimal(n)) == Some(n),
    decreases n,
{
    let s = decimal(n);
    reveal_with_fuel(digits_value, 2);
    if n < 10 {
        law_digits(n);
        assert(s.drop_last() =~= Seq::<char>::empty());
    } else {
        law_decimal_read(n / 10);
        law_digits(n % 10);
        assert(s.drop_last() =~= decimal(n / 10));
        assert(s.last() == digit(n % 10)[0]);
    }
    assert((seq!['+'] + s).drop_first() =~= s);
    assert(is_digit(s[0]));
}

/// A numeral with zeros in front is read as its number, and has at least as many digits as asked
/// for; with one digit more, the number has no room in fewer.
pub proof fn law_padded_read(n: int, width: int)
    requires
        0 <= n,
    ensures
        all_digits(padded(n, width)),
        digits_value(padded(n, width)) == n,
        padded(n, width).len() >= width,
        padded(n, width).len() > 0,
        padded(n, width).len() > width && width >= 1 ==> padded(n, width) == decimal(n),
    decreases width,
{
    let s = padded(n, width);
    if width <= 1 {
        law_decimal_read(n);
    } else {
        law_padded_read(n / 10, width - 1);
        law_digits(n % 10);
        assert(s.drop_last() =~= padded(n / 10, width - 1));
        if s.len() > width {
            if n < 10 {
                lemma_padded_zero(width - 1);
                assert(false);
            }
        }
    }
}

proof fn lemma_padded_zero(width: int)
    ensures
        width >= 1 ==> padded(0, width).len() == width,
    decreases width,
{
    law_digits(0);
    if width > 1 {
        lemma_padded_zero(width - 1);
    }
}

/// White space at the ends is taken off, as much as there is, and nothing else.
pub proof fn law_trimmed(front: Seq<char>, s: Seq<char>, back: Seq<char>)
    requires
        forall|i: int| 0 <= i < front.len() ==> is_space(#[trigger] front[i]),
        forall|i: int| 0 <= i < back.len() ==> is_space(#[trigger] back[i]),
        s.len() > 0 ==> !is_space(s.first()) && !is_space(s.last()),
    ensures
        trimmed(front + s + back) == s,
    decreases front.len() + back.len(),
{
    let whole = front + s + back;
    if front.len() > 0 {
        assert(whole.first() == front[0]);
        assert(whole.drop_first() =~= front.drop_first() + s + back);
        law_trimmed(front.drop_first(), s, back);
    } else if s.len() == 0 && back.len() > 0 {
        assert(whole.first() == back[0]);
        assert(whole.drop_first() =~= front + s + back.drop_first());
        law_trimmed(front, s, back.drop_first());
    } else if back.len() > 0 {
        assert(whole.first() == s.first());
        assert(whole.last() == back.last());
        assert(whole.drop_last() =~= front + s + back.drop_last());
        law_trimmed(front, s, back.drop_last());
    } else {
        assert(whole =~= s);
    }
}

/// A text is cut at each occurrence of the character, and nowhere else; the character itself is in
/// no piece.
pub proof fn law_pieces_cut(a: Seq<char>, b: Seq<char>, at: char)
    requires
        !a.contains(at),
    ensures
        pieces(a, at) == seq![a],
        pieces(a + seq![at] + b, at) == seq![a] + pieces(b, at),
        pieces(b, at).len() > 0,
    decreases a.len() + b.len(),
{
    if a.len() > 0 {
        assert(a.contains(a.last()));
        assert forall|c: char| a.drop_last().contains(c) implies a.contains(c) by {
            let i = choose|i: int| 0 <= i < a.len() - 1 && a.drop_last()[i] == c;
            assert(a[i] == c);
        }
        law_pieces_cut(a.drop_last(), Seq::empty(), at);
        assert(a.drop_last().push(a.last()) =~= a);
        assert(pieces(a, at) =~= seq![a]);
    } else {
        assert(pieces(a, at) =~= seq![a]);
    }
    let whole = a + seq![at] + b;
    if b.len() == 0 {
        assert(whole.drop_last() =~= a);
        assert(b =~= Seq::<char>::empty());
        assert(pieces(whole, at) =~= seq![a] + pieces(b, at));
    } else {
        law_pieces_cut(a, b.drop_last(), at);
        assert(whole.drop_last() =~= a + seq![at] + b.drop_last());
        assert(whole.last() == b.last());
        assert(pieces(whole, at) =~= seq![a] + pieces(b, at));
    }
}

/// The place of a character is that of its first occurrence; without one it is the length.
pub proof fn law_first_place(a: Seq<char>, c: char, b: Seq<char>)
    requires
        !a.contains(c),
    ensures
        place(a + seq![c] + b, c) == a.len(),
        place(a, c) == a.len(),
    decreases a.len(),
{
    let whole = a + seq![c] + b;
    if a.len() > 0 {
        assert(a.contains(a.first()));
        assert forall|d: char| a.drop_first().contains(d) implies a.contains(d) by {
            let i = choose|i: int| 0 <= i < a.len() - 1 && a.drop_first()[i] == d;
            assert(a[i + 1] == d);
        }
        law_first_place(a.drop_first(), c, b);
        assert(whole.first() == a.first());
        assert(whole.drop_first() =~= a.drop_first() + seq![c] + b);
    } else {
        assert(whole.first() == c);
    }
}

/// Small and capital ASCII letters are each other's; two texts are alike exactly if they are the
/// same in small letters.
pub proof fn law_letter_case(a: Seq<char>, b: Seq<char>)
    ensures
        alike(a, b) <==> ascii_lower(a) == ascii_lower(b),
        alike(a, ascii_lower(a)),
        alike(a, ascii_upper(a)),
        ascii_lower(seq!['A', 'Z', 'a', 'z', '@', '[']) == seq!['a', 'z', 'a', 'z', '@', '['],
        ascii_upper(seq!['A', 'Z', 'a', 'z', '`', '{']) == seq!['A', 'Z', 'A', 'Z', '`', '{'],
{
    let x = ascii_lower(a);
    let y = ascii_lower(b);
    if x == y {
        assert(x.len() == a.len() && y.len() == b.len());
        assert forall|i: int| 0 <= i < a.len() implies folded(#[trigger] a[i]) == folded(b[i]) by {
            assert(x[i] == y[i]);
        }
    }
    if alike(a, b) {
        assert forall|i: int| 0 <= i < a.len() implies x[i] == y[i] by {
            assert(folded(a[i]) == folded(b[i]));
        }
        assert(x =~= y);
    }
    assert(ascii_lower(seq!['A', 'Z', 'a', 'z', '@', '[']) =~= seq!['a', 'z', 'a', 'z', '@', '[']);
    assert(ascii_upper(seq!['A', 'Z', 'a', 'z', '`', '{']) =~= seq!['A', 'Z', 'A', 'Z', '`', '{']);
}

} // verus!
