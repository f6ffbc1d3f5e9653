use vstd::prelude::*;

verus! {

// Character classes
/// The Unicode `White_Space` property, which `char::is_whitespace` tests.
pub open spec fn is_white(c: char) -> bool {
    let u = c as u32;
    ||| 0x9 <= u <= 0xD
    ||| u == 0x20
    ||| u == 0x85
    ||| u == 0xA0
    ||| u == 0x1680
    ||| 0x2000 <= u <= 0x200A
    ||| u == 0x2028
    ||| u == 0x2029
    ||| u == 0x202F
    ||| u == 0x205F
    ||| u == 0x3000
}

/// Whether `c` is Unicode white space.
pub fn is_whitespace(c: char) -> (b: bool)
    ensures
        b == is_white(c),
{
    let u = c as u32;
    (0x9 <= u && u <= 0xD) || u == 0x20 || u == 0x85 || u == 0xA0 || u == 0x1680 || (0x2000 <= u
        && u <= 0x200A) || u == 0x2028 || u == 0x2029 || u == 0x202F || u == 0x205F || u == 0x3000
}

/// Number of bytes in the UTF-8 encoding of `c`.
pub open spec fn char_width(c: char) -> nat {
    let u = c as u32;
    if u < 0x80 {
        1
    } else if u < 0x800 {
        2
    } else if u < 0x10000 {
        3
    } else {
        4
    }
}

/// Number of bytes in the UTF-8 encoding of `c`.
pub fn char_width_of(c: char) -> (w: usize)
    ensures
        w == char_width(c),
{
    let u = c as u32;
    if u < 0x80 {
        1
    } else if u < 0x800 {
        2
    } else if u < 0x10000 {
        3
    } else {
        4
    }
}

/// Number of bytes in the UTF-8 encoding of `s` (what `str::len` returns).
pub open spec fn byte_len(s: Seq<char>) -> nat
    decreases s.len(),
{
    if s.len() == 0 {
        0
    } else {
        char_width(s[0]) + byte_len(s.drop_first())
    }
}

/// Byte lengths add up over concatenation.
pub proof fn lemma_byte_len_concat(a: Seq<char>, b: Seq<char>)
    ensures
        byte_len(a + b) == byte_len(a) + byte_len(b),
    decreases a.len(),
{
    if a.len() == 0 {
        assert(a + b =~= b);
    } else {
        assert((a + b).drop_first() =~= a.drop_first() + b);
        lemma_byte_len_concat(a.drop_first(), b);
    }
}

/// `byte_len` is the length of the UTF-8 encoding, the length that `str::len`
/// reports.
pub proof fn lemma_byte_len_is_utf8_len(s: Seq<char>)
    ensures
        byte_len(s) == vstd::utf8::encode_utf8(s).len(),
    decreases s.len(),
{
    if s.len() > 0 {
        lemma_byte_len_is_utf8_len(s.drop_first());
        vstd::utf8::char_is_scalar(s[0]);
    }
}

/// Appending a character adds its width.
pub proof fn lemma_byte_len_push(a: Seq<char>, c: char)
    ensures
        byte_len(a.push(c)) == byte_len(a) + char_width(c),
{
    lemma_byte_len_concat(a, seq![c]);
    assert(a + seq![c] =~= a.push(c));
    assert(seq![c].drop_first() =~= Seq::<char>::empty());
    assert(byte_len(seq![c].drop_first()) == 0);
    assert(byte_len(seq![c]) == char_width(c));
}

/// Every character takes at least one byte.
pub proof fn lemma_byte_len_at_least_len(s: Seq<char>)
    ensures
        byte_len(s) >= s.len(),
    decreases s.len(),
{
    if s.len() > 0 {
        lemma_byte_len_at_least_len(s.drop_first());
    }
}

// Truncation to a byte length
/// How many leading characters of `s` fit in `w` bytes.
pub open spec fn fit_count(s: Seq<char>, w: int) -> nat
    decreases s.len(),
{
    if s.len() == 0 || char_width(s[0]) > w {
        0
    } else {
        1 + fit_count(s.drop_first(), w - char_width(s[0]))
    }
}

/// `s` cut to at most `w` bytes, at the last character that fits
/// (what `String::truncate(w)` keeps).
pub open spec fn truncated(s: Seq<char>, w: nat) -> Seq<char> {
    s.take(fit_count(s, w as int) as int)
}

/// `String::truncate(w)` on `s` does not panic: either `s` is no longer than `w`
/// bytes, or byte `w` is a character boundary.
pub open spec fn truncate_ok(s: Seq<char>, w: nat) -> bool {
    byte_len(s) <= w || byte_len(truncated(s, w)) == w
}

/// The characters that fit in `w` bytes are a prefix of at most `w` bytes, and are all
/// of `s` when `s` fits.
pub proof fn lemma_fit_count(s: Seq<char>, w: int)
    requires
        w >= 0,
    ensures
        fit_count(s, w) <= s.len(),
        byte_len(s.take(fit_count(s, w) as int)) <= w,
        byte_len(s) <= w ==> fit_count(s, w) == s.len(),
    decreases s.len(),
{
    if s.len() == 0 || char_width(s[0]) > w {
        assert(s.take(0) =~= Seq::<char>::empty());
        if s.len() > 0 {
            lemma_byte_len_at_least_len(s.drop_first());
        }
    } else {
        let t = s.drop_first();
        let k = fit_count(t, w - char_width(s[0]));
        lemma_fit_count(t, w - char_width(s[0]));
        assert(s.take(1 + k as int).drop_first() =~= t.take(k as int));
        assert(s.take(1 + k as int)[0] == s[0]);
    }
}

/// A cut string is at most `w` bytes long, and is unchanged when it already fits.
pub proof fn lemma_truncated_bound(s: Seq<char>, w: nat)
    ensures
        byte_len(truncated(s, w)) <= w,
        truncated(s, w).len() <= s.len(),
        byte_len(s) <= w ==> truncated(s, w) == s,
{
    lemma_fit_count(s, w as int);
    if byte_len(s) <= w {
        assert(s.take(s.len() as int) =~= s);
    }
}

/// The leading characters of `s` that fit in `w` bytes.
pub fn truncate_chars(s: &Vec<char>, w: usize) -> (r: Vec<char>)
    ensures
        r@ == truncated(s@, w as nat),
{
    let mut i: usize = 0;
    let mut acc: usize = 0;
    assert(s@.skip(0) =~= s@);
    while i < s.len() && char_width_of(s[i]) <= w - acc
        invariant
            i <= s.len(),
            acc <= w,
            fit_count(s@, w as int) == i + fit_count(s@.skip(i as int), w - acc),
        decreases s.len() - i,
    {
        let ghost t = s@.skip(i as int);
        assert(t.drop_first() =~= s@.skip(i + 1));
        assert(t[0] == s@[i as int]);
        acc = acc + char_width_of(s[i]);
        i = i + 1;
    }
    proof {
        let t = s@.skip(i as int);
        if i < s.len() {
            assert(t[0] == s@[i as int]);
        }
    }
    let mut r: Vec<char> = Vec::new();
    let mut j: usize = 0;
    while j < i
        invariant
            j <= i <= s.len(),
            r@ == s@.take(j as int),
        decreases i - j,
    {
        r.push(s[j]);
        j = j + 1;
        assert(r@ =~= s@.take(j as int));
    }
    r
}

/// The characters of `s`, in order.
pub fn chars_of(s: &str) -> (v: Vec<char>)
    ensures
        v@ == s@,
{
    let mut v: Vec<char> = Vec::new();
    for c in it: s.chars()
        invariant
            v@ == it.seq().take(it.index() as int),
    {
        v.push(c);
    }
    v
}

// Building strings
/// `String::push`: appends one character.
#[verifier::external_body]
fn push_char(s: &mut String, c: char)
    ensures
        final(s)@ == old(s)@.push(c),
{
    s.push(c);
}

/// A `String` holding the characters `v`.
pub fn string_from_chars(v: &Vec<char>) -> (s: String)
    ensures
        s@ == v@,
{
    let mut s = String::new();
    let mut i: usize = 0;
    while i < v.len()
        invariant
            i <= v.len(),
            s@ == v@.take(i as int),
        decreases v.len() - i,
    {
        push_char(&mut s, v[i]);
        i = i + 1;
        assert(s@ =~= v@.take(i as int));
    }
    assert(v@.take(v.len() as int) =~= v@);
    s
}

/// Appends the characters `t` to `v`.
pub fn extend_chars(v: &mut Vec<char>, t: &Vec<char>)
    ensures
        final(v)@ == old(v)@ + t@,
{
    let mut i: usize = 0;
    while i < t.len()
        invariant
            i <= t.len(),
            v@ == old(v)@ + t@.take(i as int),
        decreases t.len() - i,
    {
        v.push(t[i]);
        i = i + 1;
        assert(v@ =~= old(v)@ + t@.take(i as int));
    }
    assert(t@.take(t.len() as int) =~= t@);
}

// Decimal numbers
/// An ASCII decimal digit.
pub open spec fn is_digit(c: char) -> bool {
    '0' <= c <= '9'
}

/// The value of a decimal digit.
pub open spec fn digit_value(c: char) -> nat {
    (c as u32 - '0' as u32) as nat
}

/// The decimal digit for a value below ten.
pub open spec fn digit_char(d: nat) -> char {
    if d == 0 {
        '0'
    } else if d == 1 {
        '1'
    } else if d == 2 {
        '2'
    } else if d == 3 {
        '3'
    } else if d == 4 {
        '4'
    } else if d == 5 {
        '5'
    } else if d == 6 {
        '6'
    } else if d == 7 {
        '7'
    } else if d == 8 {
        '8'
    } else {
        '9'
    }
}

/// The decimal digits of `n`, without leading zeros (what `to_string` gives).
pub open spec fn decimal(n: nat) -> Seq<char>
    decreases n,
{
    if n < 10 {
        seq![digit_char(n)]
    } else {
        decimal(n / 10).push(digit_char(n % 10))
    }
}

/// Every character is a decimal digit.
pub open spec fn all_digits(d: Seq<char>) -> bool {
    forall|i: int| 0 <= i < d.len() ==> is_digit(#[trigger] d[i])
}

/// The number that the decimal digits `d` spell.
pub open spec fn digits_value(d: Seq<char>) -> nat
    decreases d.len(),
{
    if d.len() == 0 {
        0
    } else {
        digits_value(d.drop_last()) * 10 + digit_value(d.last())
    }
}

/// What `str::parse::<usize>` returns: an optional `+`, then one or more decimal
/// digits whose value fits in a `usize`.
pub open spec fn parse_usize(s: Seq<char>) -> Option<usize> {
    let d = if s.len() > 0 && s[0] == '+' {
        s.drop_first()
    } else {
        s
    };
    if d.len() > 0 && all_digits(d) && digits_value(d) <= usize::MAX {
        Some(digits_value(d) as usize)
    } else {
        None
    }
}

fn digit_char_of(d: usize) -> (c: char)
    requires
        d < 10,
    ensures
        c == digit_char(d as nat),
{
    if d == 0 {
        '0'
    } else if d == 1 {
        '1'
    } else if d == 2 {
        '2'
    } else if d == 3 {
        '3'
    } else if d == 4 {
        '4'
    } else if d == 5 {
        '5'
    } else if d == 6 {
        '6'
    } else if d == 7 {
        '7'
    } else if d == 8 {
        '8'
    } else {
        '9'
    }
}

/// Appends the decimal digits of `n` to `out`.
pub fn push_decimal(out: &mut Vec<char>, n: usize)
    ensures
        final(out)@ == old(out)@ + decimal(n as nat),
    decreases n,
{
    if n >= 10 {
        push_decimal(out, n / 10);
    }
    out.push(digit_char_of(n % 10));
    assert(out@ =~= old(out)@ + decimal(n as nat));
}

/// The decimal representation of `n`, as `usize::to_string` gives it.
pub fn usize_to_string(n: usize) -> (s: String)
    ensures
        s@ == decimal(n as nat),
{
    let mut v: Vec<char> = Vec::new();
    push_decimal(&mut v, n);
    assert(v@ =~= decimal(n as nat));
    string_from_chars(&v)
}

/// Digit characters are digits with the value they stand for.
pub proof fn lemma_digit_char(d: nat)
    requires
        d < 10,
    ensures
        is_digit(digit_char(d)),
        digit_value(digit_char(d)) == d,
{
}

/// The decimal digits of `n` are non-empty digits, with no sign, that spell `n`.
pub proof fn lemma_decimal(n: nat)
    ensures
        decimal(n).len() > 0,
        all_digits(decimal(n)),
        digits_value(decimal(n)) == n,
        decimal(n)[0] != '+',
    decreases n,
{
    if n < 10 {
        lemma_digit_char(n);
        let d = decimal(n);
        assert(d.drop_last() =~= Seq::<char>::empty());
        assert(digits_value(d) == digits_value(d.drop_last()) * 10 + digit_value(d.last()));
    } else {
        lemma_decimal(n / 10);
        lemma_digit_char(n % 10);
        let d = decimal(n);
        assert(n == (n / 10) * 10 + n % 10);
        assert(d.last() == digit_char(n % 10));
        assert(digits_value(d) == digits_value(d.drop_last()) * 10 + digit_value(d.last()));
        assert(d.drop_last() =~= decimal(n / 10));
        assert(all_digits(d)) by {
            assert forall|i: int| 0 <= i < d.len() implies is_digit(#[trigger] d[i]) by {
                if i < d.len() - 1 {
                    assert(d[i] == decimal(n / 10)[i]);
                }
            }
        }
    }
}

/// Decimal digits hold no line feed.
pub proof fn lemma_digits_no_newline(d: Seq<char>)
    requires
        all_digits(d),
    ensures
        !d.contains('\n'),
{
    if d.contains('\n') {
        let i = choose|i: int| 0 <= i < d.len() && d[i] == '\n';
        assert(is_digit(d[i]));
    }
}

/// Parsing the decimal digits of a number gives it back.
pub proof fn lemma_parse_decimal(n: usize)
    ensures
        parse_usize(decimal(n as nat)) == Some(n),
{
    lemma_decimal(n as nat);
}

/// A prefix of decimal digits spells no more than the whole.
pub proof fn lemma_digits_value_prefix(d: Seq<char>, j: int)
    requires
        0 <= j <= d.len(),
    ensures
        digits_value(d.take(j)) <= digits_value(d),
    decreases d.len(),
{
    if j < d.len() {
        assert(d.drop_last().take(j) =~= d.take(j));
        lemma_digits_value_prefix(d.drop_last(), j);
    } else {
        assert(d.take(j) =~= d);
    }
}

/// `str::parse::<usize>` on the characters `s`.
pub fn parse_usize_chars(s: &Vec<char>) -> (r: Option<usize>)
    ensures
        r == parse_usize(s@),
{
    let start: usize = if s.len() > 0 && s[0] == '+' {
        1
    } else {
        0
    };
    let ghost d = if s@.len() > 0 && s@[0] == '+' {
        s@.drop_first()
    } else {
        s@
    };
    assert(d =~= s@.skip(start as int));
    if start >= s.len() {
        return None;
    }
    let mut acc: usize = 0;
    let mut i: usize = start;
    while i < s.len()
        invariant
            start <= i <= s.len(),
            d == s@.skip(start as int),
            d == (if s@.len() > 0 && s@[0] == '+' {
                s@.drop_first()
            } else {
                s@
            }),
            all_digits(d.take(i - start)),
            acc == digits_value(d.take(i - start)),
        decreases s.len() - i,
    {
        let c = s[i];
        let ghost k = i - start;
        assert(d[k] == c);
        if !('0' <= c && c <= '9') {
            assert(!all_digits(d));
            return None;
        }
        let dv = (c as u32 - '0' as u32) as usize;
        assert(d.take(k + 1).drop_last() =~= d.take(k));
        assert(d.take(k + 1).last() == c);
        proof {
            assert(all_digits(d.take(k + 1))) by {
                assert forall|j: int| 0 <= j < k + 1 implies is_digit(#[trigger] d.take(k + 1)[j]) by {
                    if j < k {
                        assert(d.take(k + 1)[j] == d.take(k)[j]);
                    }
                }
            }
        }
        match acc.checked_mul(10) {
            None => {
                proof {
                    lemma_digits_value_prefix(d, k + 1);
                }
                return None;
            },
            Some(m) => match m.checked_add(dv) {
                None => {
                    proof {
                        lemma_digits_value_prefix(d, k + 1);
                    }
                    return None;
                },
                Some(v) => {
                    acc = v;
                },
            },
        }
        i = i + 1;
    }
    assert(d.take(i - start) =~= d);
    Some(acc)
}

/// The character sequences held by a vector of character vectors.
pub open spec fn char_rows(v: Seq<Vec<char>>) -> Seq<Seq<char>> {
    v.map_values(|x: Vec<char>| x@)
}

/// A copy of the characters `v`.
pub fn copy_chars(v: &Vec<char>) -> (r: Vec<char>)
    ensures
        r@ == v@,
{
    let mut r: Vec<char> = Vec::new();
    extend_chars(&mut r, v);
    assert(r@ =~= v@);
    r
}

/// The characters `v[from..to]`.
pub fn chars_range(v: &Vec<char>, from: usize, to: usize) -> (r: Vec<char>)
    requires
        from <= to <= v.len(),
    ensures
        r@ == v@.subrange(from as int, to as int),
{
    let mut r: Vec<char> = Vec::new();
    let mut i = from;
    while i < to
        invariant
            from <= i <= to <= v.len(),
            r@ == v@.subrange(from as int, i as int),
        decreases to - i,
    {
        r.push(v[i]);
        i = i + 1;
        assert(r@ =~= v@.subrange(from as int, i as int));
    }
    r
}

// Lines, as `BufRead::read_line` and `str::lines` see them
/// One step of cutting text after each `\n`: completed pieces and the piece being read.
pub open spec fn incl_step(st: (Seq<Seq<char>>, Seq<char>), c: char) -> (Seq<Seq<char>>, Seq<char>) {
    if c == '\n' {
        (st.0.push(st.1.push(c)), Seq::<char>::empty())
    } else {
        (st.0, st.1.push(c))
    }
}

/// The pieces completed, and the piece being read, after reading `s`.
pub open spec fn split_incl(s: Seq<char>) -> (Seq<Seq<char>>, Seq<char>)
    decreases s.len(),
{
    if s.len() == 0 {
        (Seq::<Seq<char>>::empty(), Seq::<char>::empty())
    } else {
        incl_step(split_incl(s.drop_last()), s.last())
    }
}

/// The pieces of `s` that successive `read_line` calls return: each ends with its
/// `\n`, except perhaps the last.
pub open spec fn pieces(s: Seq<char>) -> Seq<Seq<char>> {
    let st = split_incl(s);
    if st.1.len() == 0 {
        st.0
    } else {
        st.0.push(st.1)
    }
}

/// A piece without its line ending (`\n` or `\r\n`).
pub open spec fn strip_line(p: Seq<char>) -> Seq<char> {
    if p.len() > 0 && p.last() == '\n' {
        let q = p.drop_last();
        if q.len() > 0 && q.last() == '\r' {
            q.drop_last()
        } else {
            q
        }
    } else {
        p
    }
}

/// The lines that `str::lines` yields.
pub open spec fn lines(s: Seq<char>) -> Seq<Seq<char>> {
    pieces(s).map_values(|p: Seq<char>| strip_line(p))
}

/// Reading `a` and then `b`, when `a` ends a line, cuts each on its own.
pub proof fn lemma_split_incl_concat(a: Seq<char>, b: Seq<char>)
    requires
        split_incl(a).1.len() == 0,
    ensures
        split_incl(a + b) == (split_incl(a).0 + split_incl(b).0, split_incl(b).1),
    decreases b.len(),
{
    if b.len() == 0 {
        assert(a + b =~= a);
        assert(split_incl(a).0 + split_incl(b).0 =~= split_incl(a).0);
    } else {
        assert((a + b).drop_last() =~= a + b.drop_last());
        assert((a + b).last() == b.last());
        lemma_split_incl_concat(a, b.drop_last());
        let x = split_incl(a).0;
        let y = split_incl(b.drop_last()).0;
        let cur = split_incl(b.drop_last()).1;
        if b.last() == '\n' {
            assert((x + y).push(cur.push('\n')) =~= x + y.push(cur.push('\n')));
        }
    }
}

/// Text without a line feed is one unfinished piece.
pub proof fn lemma_split_incl_no_newline(s: Seq<char>)
    requires
        !s.contains('\n'),
    ensures
        split_incl(s) == (Seq::<Seq<char>>::empty(), s),
    decreases s.len(),
{
    if s.len() == 0 {
        assert(split_incl(s).1 =~= s);
    } else {
        assert(!s.drop_last().contains('\n')) by {
            if s.drop_last().contains('\n') {
                let i = choose|i: int| 0 <= i < s.drop_last().len() && s.drop_last()[i] == '\n';
                assert(s[i] == '\n');
            }
        }
        lemma_split_incl_no_newline(s.drop_last());
        assert(s.last() != '\n') by {
            assert(s[s.len() - 1] == s.last());
        }
        assert(s.drop_last().push(s.last()) =~= s);
    }
}

/// Cuts `s` after each `\n`, as `read_line` does.
pub fn line_pieces(s: &Vec<char>) -> (r: Vec<Vec<char>>)
    ensures
        char_rows(r@) == pieces(s@),
{
    let mut done: Vec<Vec<char>> = Vec::new();
    let mut cur: Vec<char> = Vec::new();
    let mut i: usize = 0;
    while i < s.len()
        invariant
            i <= s.len(),
            (char_rows(done@), cur@) == split_incl(s@.take(i as int)),
        decreases s.len() - i,
    {
        let c = s[i];
        assert(s@.take(i + 1).drop_last() =~= s@.take(i as int));
        assert(s@.take(i + 1).last() == c);
        cur.push(c);
        if c == '\n' {
            let piece = copy_chars(&cur);
            done.push(piece);
            cur = Vec::new();
            assert(char_rows(done@) =~= split_incl(s@.take(i + 1)).0);
            assert(cur@ =~= split_incl(s@.take(i + 1)).1);
        } else {
            assert(cur@ =~= split_incl(s@.take(i + 1)).1);
        }
        i = i + 1;
    }
    assert(s@.take(s.len() as int) =~= s@);
    if cur.len() > 0 {
        done.push(cur);
        assert(char_rows(done@) =~= pieces(s@));
    }
    done
}

/// A piece without its line ending.
pub fn strip_line_chars(p: &Vec<char>) -> (r: Vec<char>)
    ensures
        r@ == strip_line(p@),
{
    let n = p.len();
    if n > 0 && p[n - 1] == '\n' {
        if n > 1 && p[n - 2] == '\r' {
            chars_range(p, 0, n - 2)
        } else {
            chars_range(p, 0, n - 1)
        }
    } else {
        copy_chars(p)
    }
}

/// The lines of `s`, as `str::lines` yields them.
pub fn lines_of(s: &Vec<char>) -> (r: Vec<Vec<char>>)
    ensures
        char_rows(r@) == lines(s@),
{
    let ps = line_pieces(s);
    let mut r: Vec<Vec<char>> = Vec::new();
    let mut i: usize = 0;
    while i < ps.len()
        invariant
            i <= ps.len(),
            char_rows(ps@) == pieces(s@),
            char_rows(r@) == lines(s@).take(i as int),
        decreases ps.len() - i,
    {
        let l = strip_line_chars(&ps[i]);
        let ghost before = char_rows(r@);
        assert(char_rows(ps@)[i as int] == ps[i as int]@);
        assert(lines(s@)[i as int] == strip_line(pieces(s@)[i as int]));
        r.push(l);
        assert(char_rows(r@) =~= before.push(l@));
        i = i + 1;
        assert(char_rows(r@) =~= lines(s@).take(i as int));
    }
    assert(lines(s@).take(i as int) =~= lines(s@));
    r
}

// White space
/// `s` without leading white space.
pub open spec fn trim_start(s: Seq<char>) -> Seq<char>
    decreases s.len(),
{
    if s.len() > 0 && is_white(s[0]) {
        trim_start(s.drop_first())
    } else {
        s
    }
}

/// `s` without trailing white space.
pub open spec fn trim_end(s: Seq<char>) -> Seq<char>
    decreases s.len(),
{
    if s.len() > 0 && is_white(s.last()) {
        trim_end(s.drop_last())
    } else {
        s
    }
}

/// `s` without leading and trailing white space (`str::trim`).
pub open spec fn trim(s: Seq<char>) -> Seq<char> {
    trim_end(trim_start(s))
}

/// Index of the first non-white character of `s` (or its length).
fn skip_white_start(s: &Vec<char>) -> (i: usize)
    ensures
        i <= s.len(),
        trim_start(s@) == s@.skip(i as int),
{
    let mut i: usize = 0;
    assert(s@.skip(0) =~= s@);
    while i < s.len() && is_whitespace(s[i])
        invariant
            i <= s.len(),
            trim_start(s@) == trim_start(s@.skip(i as int)),
        decreases s.len() - i,
    {
        assert(s@.skip(i as int).drop_first() =~= s@.skip(i + 1));
        assert(s@.skip(i as int)[0] == s@[i as int]);
        i = i + 1;
    }
    proof {
        if i < s.len() {
            assert(s@.skip(i as int)[0] == s@[i as int]);
        }
    }
    i
}

/// End of `s[from..]` once trailing white space is dropped.
fn skip_white_end(s: &Vec<char>, from: usize) -> (j: usize)
    requires
        from <= s.len(),
    ensures
        from <= j <= s.len(),
        trim_end(s@.skip(from as int)) == s@.subrange(from as int, j as int),
{
    let ghost t = s@.skip(from as int);
    let mut j: usize = s.len();
    assert(t.take(t.len() as int) =~= t);
    while j > from && is_whitespace(s[j - 1])
        invariant
            from <= j <= s.len(),
            t == s@.skip(from as int),
            trim_end(t) == trim_end(t.take(j - from)),
        decreases j,
    {
        assert(t.take(j - from).drop_last() =~= t.take(j - 1 - from));
        assert(t.take(j - from).last() == s@[j - 1]);
        j = j - 1;
    }
    proof {
        if j > from {
            assert(t.take(j - from).last() == s@[j - 1]);
        }
    }
    assert(t.take(j - from) =~= s@.subrange(from as int, j as int));
    j
}

/// `str::trim` on the characters `s`.
pub fn trim_chars(s: &Vec<char>) -> (r: Vec<char>)
    ensures
        r@ == trim(s@),
{
    let i = skip_white_start(s);
    let j = skip_white_end(s, i);
    chars_range(s, i, j)
}

/// One step of cutting text into words.
pub open spec fn word_step(st: (Seq<Seq<char>>, Seq<char>), c: char) -> (Seq<Seq<char>>, Seq<char>) {
    if is_white(c) {
        if st.1.len() > 0 {
            (st.0.push(st.1), Seq::<char>::empty())
        } else {
            st
        }
    } else {
        (st.0, st.1.push(c))
    }
}

/// The words completed, and the word being read, after reading `s`.
pub open spec fn word_fold(s: Seq<char>) -> (Seq<Seq<char>>, Seq<char>)
    decreases s.len(),
{
    if s.len() == 0 {
        (Seq::<Seq<char>>::empty(), Seq::<char>::empty())
    } else {
        word_step(word_fold(s.drop_last()), s.last())
    }
}

/// The maximal runs of non-white characters of `s` (`str::split_whitespace`).
pub open spec fn words(s: Seq<char>) -> Seq<Seq<char>> {
    let st = word_fold(s);
    if st.1.len() == 0 {
        st.0
    } else {
        st.0.push(st.1)
    }
}

/// `str::split_whitespace` on the characters `s`.
pub fn words_of(s: &Vec<char>) -> (r: Vec<Vec<char>>)
    ensures
        char_rows(r@) == words(s@),
{
    let mut done: Vec<Vec<char>> = Vec::new();
    let mut cur: Vec<char> = Vec::new();
    let mut i: usize = 0;
    while i < s.len()
        invariant
            i <= s.len(),
            (char_rows(done@), cur@) == word_fold(s@.take(i as int)),
        decreases s.len() - i,
    {
        let c = s[i];
        assert(s@.take(i + 1).drop_last() =~= s@.take(i as int));
        assert(s@.take(i + 1).last() == c);
        if is_whitespace(c) {
            if cur.len() > 0 {
                done.push(cur);
                cur = Vec::new();
                assert(char_rows(done@) =~= word_fold(s@.take(i + 1)).0);
                assert(cur@ =~= word_fold(s@.take(i + 1)).1);
            }
        } else {
            cur.push(c);
        }
        i = i + 1;
    }
    assert(s@.take(s.len() as int) =~= s@);
    if cur.len() > 0 {
        done.push(cur);
        assert(char_rows(done@) =~= words(s@));
    }
    done
}

// Blocks separated by a blank line
/// The separator between blocks: `"\n\n"`.
pub open spec fn blank_sep() -> Seq<char> {
    seq!['\n', '\n']
}

/// One step of cutting text at each `"\n\n"`, left to right, without overlap.
pub open spec fn sep_step(st: (Seq<Seq<char>>, Seq<char>), c: char) -> (Seq<Seq<char>>, Seq<char>) {
    if c == '\n' && st.1.len() > 0 && st.1.last() == '\n' {
        (st.0.push(st.1.drop_last()), Seq::<char>::empty())
    } else {
        (st.0, st.1.push(c))
    }
}

/// The blocks completed, and the block being read, after reading `s`.
pub open spec fn sep_fold(s: Seq<char>) -> (Seq<Seq<char>>, Seq<char>)
    decreases s.len(),
{
    if s.len() == 0 {
        (Seq::<Seq<char>>::empty(), Seq::<char>::empty())
    } else {
        sep_step(sep_fold(s.drop_last()), s.last())
    }
}

/// The parts of `s` between occurrences of `"\n\n"` (`str::split("\n\n")`).
pub open spec fn blocks(s: Seq<char>) -> Seq<Seq<char>> {
    sep_fold(s).0.push(sep_fold(s).1)
}

/// The parts `ps` joined with `"\n\n"` between them (`join("\n\n")`).
pub open spec fn join_blocks(ps: Seq<Seq<char>>) -> Seq<char>
    decreases ps.len(),
{
    if ps.len() == 0 {
        Seq::<char>::empty()
    } else if ps.len() == 1 {
        ps[0]
    } else {
        join_blocks(ps.drop_last()) + blank_sep() + ps.last()
    }
}

/// Joining one more block adds a separator and the block.
pub proof fn lemma_join_push(ps: Seq<Seq<char>>, p: Seq<char>)
    ensures
        join_blocks(ps.push(p)) == if ps.len() == 0 {
            p
        } else {
            join_blocks(ps) + blank_sep() + p
        },
{
    assert(ps.push(p).drop_last() =~= ps);
}

/// Joining the blocks of `s` gives `s` back.
pub proof fn lemma_join_blocks(s: Seq<char>)
    ensures
        join_blocks(blocks(s)) == s,
    decreases s.len(),
{
    if s.len() == 0 {
        assert(blocks(s) =~= seq![Seq::<char>::empty()]);
    } else {
        let t = s.drop_last();
        let c = s.last();
        lemma_join_blocks(t);
        let st = sep_fold(t);
        lemma_join_push(st.0, st.1);
        assert(s =~= t.push(c));
        if c == '\n' && st.1.len() > 0 && st.1.last() == '\n' {
            lemma_join_push(st.0, st.1.drop_last());
            lemma_join_push(st.0.push(st.1.drop_last()), Seq::<char>::empty());
            assert(st.1 =~= st.1.drop_last().push('\n'));
            if st.0.len() == 0 {
                assert(join_blocks(blocks(s)) =~= s);
            } else {
                assert(join_blocks(blocks(s)) =~= s);
            }
        } else {
            lemma_join_push(st.0, st.1.push(c));
            if st.0.len() == 0 {
                assert(join_blocks(blocks(s)) =~= s);
            } else {
                assert(join_blocks(blocks(s)) =~= s);
            }
        }
    }
}

/// Cutting `a` and then `b`, when `a` ends on a separator, cuts each on its own.
pub proof fn lemma_sep_fold_concat(a: Seq<char>, b: Seq<char>)
    requires
        sep_fold(a).1.len() == 0,
    ensures
        sep_fold(a + b) == (sep_fold(a).0 + sep_fold(b).0, sep_fold(b).1),
    decreases b.len(),
{
    if b.len() == 0 {
        assert(a + b =~= a);
        assert(sep_fold(a).0 + sep_fold(b).0 =~= sep_fold(a).0);
    } else {
        assert((a + b).drop_last() =~= a + b.drop_last());
        assert((a + b).last() == b.last());
        lemma_sep_fold_concat(a, b.drop_last());
        let x = sep_fold(a).0;
        let y = sep_fold(b.drop_last()).0;
        let cur = sep_fold(b.drop_last()).1;
        assert((x + y).push(cur.drop_last()) =~= x + y.push(cur.drop_last()));
    }
}

/// `str::split("\n\n")` on the characters `s`.
pub fn blocks_of(s: &Vec<char>) -> (r: Vec<Vec<char>>)
    ensures
        char_rows(r@) == blocks(s@),
{
    let mut done: Vec<Vec<char>> = Vec::new();
    let mut cur: Vec<char> = Vec::new();
    let mut i: usize = 0;
    while i < s.len()
        invariant
            i <= s.len(),
            (char_rows(done@), cur@) == sep_fold(s@.take(i as int)),
        decreases s.len() - i,
    {
        let c = s[i];
        assert(s@.take(i + 1).drop_last() =~= s@.take(i as int));
        assert(s@.take(i + 1).last() == c);
        let n = cur.len();
        if c == '\n' && n > 0 && cur[n - 1] == '\n' {
            let part = chars_range(&cur, 0, n - 1);
            let ghost before = char_rows(done@);
            done.push(part);
            assert(char_rows(done@) =~= before.push(part@));
            cur = Vec::new();
            assert(cur@ =~= sep_fold(s@.take(i + 1)).1);
        } else {
            cur.push(c);
        }
        i = i + 1;
    }
    assert(s@.take(s.len() as int) =~= s@);
    let ghost before = char_rows(done@);
    done.push(cur);
    assert(char_rows(done@) =~= before.push(cur@));
    done
}

/// The parts `ps` joined with `"\n\n"` between them.
pub fn join_blocks_of(ps: &Vec<Vec<char>>) -> (r: Vec<char>)
    ensures
        r@ == join_blocks(char_rows(ps@)),
{
    let mut r: Vec<char> = Vec::new();
    let mut i: usize = 0;
    while i < ps.len()
        invariant
            i <= ps.len(),
            r@ == join_blocks(char_rows(ps@).take(i as int)),
        decreases ps.len() - i,
    {
        let ghost rows = char_rows(ps@);
        proof {
            assert(rows.take(i + 1) =~= rows.take(i as int).push(ps@[i as int]@));
            lemma_join_push(rows.take(i as int), ps@[i as int]@);
        }
        if i > 0 {
            r.push('\n');
            r.push('\n');
        }
        extend_chars(&mut r, &ps[i]);
        i = i + 1;
        assert(r@ =~= join_blocks(rows.take(i as int)));
    }
    assert(char_rows(ps@).take(i as int) =~= char_rows(ps@));
    r
}

} // verus!
