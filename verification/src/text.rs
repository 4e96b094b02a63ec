//! Text as sequences of characters: taking strings apart and putting them together.

use vstd::prelude::*;

verus! {

/// `String::push` appends one character to the end of the string.
pub assume_specification[ String::push ](s: &mut String, c: char)
    ensures
        final(s)@ == old(s)@.push(c),
;

/// The texts of a sequence of strings.
pub open spec fn texts(v: Seq<String>) -> Seq<Seq<char>> {
    Seq::new(v.len(), |i: int| v[i]@)
}

/// The decimal digit for a number below ten.
pub open spec fn digit_char(d: int) -> char {
    (48 + d) as char
}

/// A number written in decimal, without leading zeros.
pub open spec fn decimal(n: nat) -> Seq<char>
    decreases n,
{
    if n < 10 {
        seq![digit_char(n as int)]
    } else {
        decimal(n / 10).push(digit_char((n % 10) as int))
    }
}

/// Writes a number in decimal.
pub fn decimal_text(n: u64) -> (r: String)
    ensures
        r@ == decimal(n as nat),
    decreases n,
{
    if n < 10 {
        let mut s = String::new();
        s.push((48u8 + n as u8) as char);
        assert(s@ =~= seq![digit_char(n as int)]);
        s
    } else {
        let mut s = decimal_text(n / 10);
        s.push((48u8 + (n % 10) as u8) as char);
        s
    }
}

/// The characters of a string.
pub fn chars_of(s: &str) -> (r: Vec<char>)
    ensures
        r@ == s@,
{
    let mut v: Vec<char> = Vec::new();
    for c in it: s.chars()
        invariant
            v@ == it.seq().take(it.index() as int),
            it.seq() == s@,
    {
        v.push(c);
    }
    v
}

/// The string with the given characters.
pub fn text_of(chars: &[char]) -> (r: String)
    ensures
        r@ == chars@,
{
    let mut s = String::new();
    let mut i: usize = 0;
    while i < chars.len()
        invariant
            i <= chars.len(),
            s@ == chars@.take(i as int),
        decreases chars.len() - i,
    {
        s.push(chars[i]);
        i += 1;
        assert(chars@.take(i as int) =~= chars@.take(i - 1).push(chars@[i - 1]));
    }
    assert(chars@.take(i as int) =~= chars@);
    s
}


/// The pieces joined with a separator between each two of them.
pub open spec fn join(parts: Seq<Seq<char>>, sep: Seq<char>) -> Seq<char>
    decreases parts.len(),
{
    if parts.len() == 0 {
        Seq::empty()
    } else if parts.len() == 1 {
        parts[0]
    } else {
        join(parts.drop_last(), sep) + sep + parts.last()
    }
}

/// Whether a character occurs nowhere in a text.
pub open spec fn free_of(s: Seq<char>, c: char) -> bool {
    forall|i: int| 0 <= i < s.len() ==> s[i] != c
}

/// The pieces of a text between the occurrences of a separator.
pub open spec fn split_on(s: Seq<char>, sep: char) -> Seq<Seq<char>>
    decreases s.len(),
{
    if s.len() == 0 {
        seq![Seq::empty()]
    } else {
        let p = split_on(s.drop_last(), sep);
        if s.last() == sep {
            p.push(Seq::empty())
        } else {
            p.drop_last().push(p.last().push(s.last()))
        }
    }
}

/// Splitting gives at least one piece.
pub proof fn lemma_split_nonempty(s: Seq<char>, sep: char)
    ensures
        split_on(s, sep).len() >= 1,
    decreases s.len(),
{
    if s.len() > 0 {
        lemma_split_nonempty(s.drop_last(), sep);
    }
}

/// Splitting and joining again gives the text back, and no piece holds the separator.
pub proof fn lemma_split_join(s: Seq<char>, sep: char)
    ensures
        join(split_on(s, sep), seq![sep]) == s,
        forall|i: int|
            0 <= i < split_on(s, sep).len() ==> free_of(#[trigger] split_on(s, sep)[i], sep),
    decreases s.len(),
{
    if s.len() > 0 {
        let t = s.drop_last();
        let p = split_on(t, sep);
        lemma_split_nonempty(t, sep);
        lemma_split_join(t, sep);
        let q = split_on(s, sep);
        if s.last() == sep {
            assert(q.drop_last() =~= p);
            assert(q.len() >= 2);
            assert(join(q, seq![sep]) =~= t + seq![sep] + Seq::empty());
            assert(join(q, seq![sep]) =~= s);
            assert forall|i: int| 0 <= i < q.len() implies free_of(#[trigger] q[i], sep) by {
                if i < p.len() {
                    assert(q[i] == p[i]);
                }
            }
        } else {
            assert(q.drop_last() =~= p.drop_last());
            assert(q.last() == p.last().push(s.last()));
            if p.len() == 1 {
                assert(join(q, seq![sep]) =~= t.push(s.last()));
            } else {
                assert(join(q, seq![sep]) =~= t.push(s.last()));
            }
            assert(t.push(s.last()) =~= s);
            assert forall|i: int| 0 <= i < q.len() implies free_of(#[trigger] q[i], sep) by {
                if i < p.len() - 1 {
                    assert(q[i] == p[i]);
                } else {
                    assert(free_of(p[p.len() - 1], sep));
                }
            }
        }
    } else {
        assert(split_on(s, sep) =~= seq![Seq::<char>::empty()]);
        assert(s =~= Seq::empty());
    }
}

/// Appending text without the separator extends the last piece.
pub proof fn lemma_split_append(s: Seq<char>, t: Seq<char>, sep: char)
    requires
        free_of(t, sep),
    ensures
        split_on(s + t, sep) == split_on(s, sep).drop_last().push(split_on(s, sep).last() + t),
    decreases t.len(),
{
    lemma_split_nonempty(s, sep);
    let p = split_on(s, sep);
    if t.len() == 0 {
        assert(s + t =~= s);
        assert(p.last() + t =~= p.last());
        assert(p.drop_last().push(p.last()) =~= p);
    } else {
        let u = t.drop_last();
        assert(free_of(u, sep)) by {
            assert forall|i: int| 0 <= i < u.len() implies u[i] != sep by {
                assert(u[i] == t[i]);
            }
        }
        lemma_split_append(s, u, sep);
        assert((s + t).drop_last() =~= s + u);
        assert((s + t).last() == t.last());
        let q = split_on(s + u, sep);
        assert(q.drop_last() =~= p.drop_last());
        assert(q.last() == p.last() + u);
        assert((p.last() + u).push(t.last()) =~= p.last() + t);
    }
}

/// Joining pieces that do not hold the separator and splitting again gives the pieces back.
pub proof fn lemma_join_split(parts: Seq<Seq<char>>, sep: char)
    requires
        parts.len() >= 1,
        forall|i: int| 0 <= i < parts.len() ==> free_of(#[trigger] parts[i], sep),
    ensures
        split_on(join(parts, seq![sep]), sep) == parts,
    decreases parts.len(),
{
    let e = Seq::<char>::empty();
    if parts.len() == 1 {
        lemma_split_append(e, parts[0], sep);
        assert(e + parts[0] =~= parts[0]);
        assert(split_on(e, sep) =~= seq![e]);
        assert(split_on(parts[0], sep) =~= parts);
    } else {
        let front = parts.drop_last();
        assert forall|i: int| 0 <= i < front.len() implies free_of(#[trigger] front[i], sep) by {
            assert(front[i] == parts[i]);
        }
        lemma_join_split(front, sep);
        let j = join(front, seq![sep]);
        let k = j + seq![sep];
        assert(k.drop_last() =~= j);
        assert(split_on(k, sep) == front.push(e));
        lemma_split_append(k, parts.last(), sep);
        assert(front.push(e).drop_last() =~= front);
        assert(e + parts.last() =~= parts.last());
        assert(front.push(parts.last()) =~= parts);
    }
}

/// Splits a text at each occurrence of a character.
pub fn split(chars: &[char], sep: char) -> (r: Vec<String>)
    ensures
        texts(r@) == split_on(chars@, sep),
{
    let mut parts: Vec<String> = Vec::new();
    let mut cur = String::new();
    let mut i: usize = 0;
    proof {
        assert(texts(parts@).push(cur@) =~= split_on(chars@.take(0), sep));
    }
    while i < chars.len()
        invariant
            i <= chars.len(),
            texts(parts@).push(cur@) == split_on(chars@.take(i as int), sep),
        decreases chars.len() - i,
    {
        let c = chars[i];
        let ghost before = texts(parts@);
        let ghost piece = cur@;
        assert(chars@.take(i + 1).drop_last() =~= chars@.take(i as int));
        assert(before.push(piece).drop_last() =~= before);
        if c == sep {
            parts.push(cur);
            cur = String::new();
            assert(texts(parts@) =~= before.push(piece));
        } else {
            cur.push(c);
        }
        i += 1;
        assert(texts(parts@).push(cur@) =~= split_on(chars@.take(i as int), sep));
    }
    assert(chars@.take(i as int) =~= chars@);
    let ghost before = texts(parts@);
    let ghost piece = cur@;
    parts.push(cur);
    assert(texts(parts@) =~= before.push(piece));
    parts
}

/// Joins texts with a separator.
pub fn join_texts(parts: &Vec<String>, sep: &str) -> (r: String)
    ensures
        r@ == join(texts(parts@), sep@),
{
    let mut s = String::new();
    let mut i: usize = 0;
    assert(texts(parts@).take(0) =~= Seq::empty());
    while i < parts.len()
        invariant
            i <= parts.len(),
            s@ == join(texts(parts@).take(i as int), sep@),
        decreases parts.len() - i,
    {
        assert(texts(parts@).take(i + 1).drop_last() =~= texts(parts@).take(i as int));
        if i > 0 {
            s.append(sep);
        }
        s.append(parts[i].as_str());
        i += 1;
        assert(s@ =~= join(texts(parts@).take(i as int), sep@));
    }
    assert(texts(parts@).take(i as int) =~= texts(parts@));
    s
}

/// A text without the given character at its end.
pub open spec fn trim_end(s: Seq<char>, c: char) -> Seq<char>
    decreases s.len(),
{
    if s.len() > 0 && s.last() == c {
        trim_end(s.drop_last(), c)
    } else {
        s
    }
}

/// Removes every occurrence of a character from the end of a text.
pub fn trim_end_char(s: &str, c: char) -> (r: Vec<char>)
    ensures
        r@ == trim_end(s@, c),
{
    let mut v = chars_of(s);
    let mut n: usize = v.len();
    assert(v@.take(n as int) =~= v@);
    while n > 0 && v[n - 1] == c
        invariant
            n <= v.len(),
            v@ == s@,
            trim_end(v@.take(n as int), c) == trim_end(s@, c),
        decreases n,
    {
        assert(v@.take(n as int).drop_last() =~= v@.take(n - 1));
        n -= 1;
    }
    v.truncate(n);
    assert(v@ =~= s@.take(n as int));
    v
}

/// A decimal text has at least one character and holds digits only.
pub proof fn lemma_decimal_digits(n: nat)
    ensures
        decimal(n).len() >= 1,
        forall|i: int| 0 <= i < decimal(n).len() ==> '0' <= #[trigger] decimal(n)[i] <= '9',
    decreases n,
{
    if n >= 10 {
        lemma_decimal_digits(n / 10);
    }
}

/// Two numbers with the same decimal text are the same.
pub proof fn lemma_decimal_injective(a: nat, b: nat)
    requires
        decimal(a) == decimal(b),
    ensures
        a == b,
    decreases a,
{
    lemma_decimal_digits(a / 10);
    lemma_decimal_digits(b / 10);
    assert(decimal(a).last() == digit_char((a % 10) as int));
    assert(decimal(b).last() == digit_char((b % 10) as int));
    assert(a % 10 == b % 10);
    if a >= 10 {
        assert(decimal(a).len() >= 2);
        assert(b >= 10);
        assert(decimal(a).drop_last() =~= decimal(a / 10));
        assert(decimal(b).drop_last() =~= decimal(b / 10));
        lemma_decimal_injective(a / 10, b / 10);
    } else {
        assert(decimal(b).len() == 1);
        assert(b < 10);
    }
}

/// The value of a text of decimal digits.
pub open spec fn digits_value(s: Seq<char>) -> nat
    decreases s.len(),
{
    if s.len() == 0 {
        0
    } else {
        digits_value(s.drop_last()) * 10 + (s.last() as nat - 48) as nat
    }
}

/// Whether a text is one or more decimal digits.
pub open spec fn all_digits(s: Seq<char>) -> bool {
    s.len() > 0 && forall|i: int| 0 <= i < s.len() ==> '0' <= #[trigger] s[i] <= '9'
}

/// The number that a text of digits stands for, if it does not exceed a limit.
pub open spec fn bounded_number(s: Seq<char>, limit: nat) -> Option<nat> {
    if all_digits(s) && digits_value(s) <= limit {
        Some(digits_value(s))
    } else {
        None
    }
}

/// The first place of a character in a text, or the length of the text.
pub open spec fn position(s: Seq<char>, c: char) -> int
    decreases s.len(),
{
    if s.len() == 0 || s[0] == c {
        0
    } else {
        1 + position(s.drop_first(), c)
    }
}

/// What precedes the first place of a character holds it nowhere.
pub proof fn lemma_position(s: Seq<char>, c: char)
    ensures
        0 <= position(s, c) <= s.len(),
        forall|i: int| 0 <= i < position(s, c) ==> s[i] != c,
        position(s, c) < s.len() ==> s[position(s, c)] == c,
    decreases s.len(),
{
    if s.len() > 0 && s[0] != c {
        lemma_position(s.drop_first(), c);
        assert forall|i: int| 0 <= i < position(s, c) implies s[i] != c by {
            if i > 0 {
                assert(s[i] == s.drop_first()[i - 1]);
            }
        }
    }
}

/// A place that holds a character, with none before it, is the first place of the character.
pub proof fn lemma_position_is(s: Seq<char>, c: char, k: int)
    requires
        0 <= k <= s.len(),
        forall|i: int| 0 <= i < k ==> s[i] != c,
        k < s.len() ==> s[k] == c,
    ensures
        position(s, c) == k,
{
    lemma_position(s, c);
}

/// A longer run of digits stands for a number that is at least as large.
proof fn lemma_digits_monotone(s: Seq<char>, k: int)
    requires
        0 <= k <= s.len(),
        all_digits(s),
    ensures
        digits_value(s.take(k)) <= digits_value(s),
    decreases s.len() - k,
{
    if k < s.len() {
        lemma_digits_monotone(s, k + 1);
        assert(s.take(k + 1).drop_last() =~= s.take(k));
        assert(s.take(k + 1).last() == s[k]);
    } else {
        assert(s.take(k) =~= s);
    }
}

/// Reads a number that does not exceed a limit.
pub fn parse_number(s: &[char], limit: u32) -> (r: Option<u32>)
    ensures
        match r {
            Some(n) => bounded_number(s@, limit as nat) == Some(n as nat),
            None => bounded_number(s@, limit as nat) is None,
        },
{
    if s.len() == 0 {
        return None;
    }
    let mut n: u64 = 0;
    let mut i: usize = 0;
    assert(s@.take(0) =~= Seq::empty());
    while i < s.len()
        invariant
            i <= s.len(),
            s@.len() > 0,
            forall|j: int| 0 <= j < i ==> '0' <= #[trigger] s@[j] <= '9',
            n == digits_value(s@.take(i as int)),
            n <= limit,
        decreases s.len() - i,
    {
        let c = s[i];
        if !('0' <= c && c <= '9') {
            assert(!all_digits(s@));
            return None;
        }
        assert(s@.take(i + 1).drop_last() =~= s@.take(i as int));
        n = n * 10 + (c as u32 - 48) as u64;
        i += 1;
        if n > limit as u64 {
            proof {
                if all_digits(s@) {
                    lemma_digits_monotone(s@, i as int);
                }
            }
            return None;
        }
    }
    assert(s@.take(i as int) =~= s@);
    Some(n as u32)
}

/// The first place of a character in a text, or the length of the text.
pub fn find_char(s: &[char], c: char) -> (r: usize)
    ensures
        r == position(s@, c),
        r <= s.len(),
{
    let mut i: usize = 0;
    while i < s.len()
        invariant
            i <= s.len(),
            forall|j: int| 0 <= j < i ==> s@[j] != c,
        decreases s.len() - i,
    {
        if s[i] == c {
            proof {
                lemma_position_is(s@, c, i as int);
            }
            return i;
        }
        i += 1;
    }
    proof {
        lemma_position_is(s@, c, i as int);
    }
    i
}

/// A part of a text, from one place up to another.
pub fn part_of(s: &[char], from: usize, to: usize) -> (r: Vec<char>)
    requires
        from <= to <= s.len(),
    ensures
        r@ == s@.subrange(from as int, to as int),
{
    let mut v: Vec<char> = Vec::new();
    let mut i: usize = from;
    while i < to
        invariant
            from <= i <= to <= s.len(),
            v@ == s@.subrange(from as int, i as int),
        decreases to - i,
    {
        v.push(s[i]);
        i += 1;
        assert(s@.subrange(from as int, i as int) =~= s@.subrange(from as int, i - 1).push(
            s@[i - 1],
        ));
    }
    v
}

/// A text with spaces after it, up to a width.
pub open spec fn padded_end(s: Seq<char>, width: nat) -> Seq<char> {
    if s.len() < width {
        s + Seq::new((width - s.len()) as nat, |i: int| ' ')
    } else {
        s
    }
}

/// A text with spaces before it, up to a width.
pub open spec fn padded_start(s: Seq<char>, width: nat) -> Seq<char> {
    if s.len() < width {
        Seq::new((width - s.len()) as nat, |i: int| ' ') + s
    } else {
        s
    }
}

/// Writes a text with spaces after it, up to a width.
pub fn pad_end(s: &str, width: usize) -> (r: String)
    ensures
        r@ == padded_end(s@, width as nat),
{
    let n: usize = chars_of(s).len();
    let mut out = s.to_owned();
    let mut i: usize = n;
    while i < width
        invariant
            n == s@.len(),
            n <= i,
            i <= width || i == n,
            out@ == s@ + Seq::new((i - n) as nat, |k: int| ' '),
        decreases width - i,
    {
        out.push(' ');
        i += 1;
        assert(out@ =~= s@ + Seq::new((i - n) as nat, |k: int| ' '));
    }
    out
}

/// Writes a text with spaces before it, up to a width.
pub fn pad_start(s: &str, width: usize) -> (r: String)
    ensures
        r@ == padded_start(s@, width as nat),
{
    let n: usize = chars_of(s).len();
    let mut out = String::new();
    let mut i: usize = n;
    while i < width
        invariant
            n == s@.len(),
            n <= i,
            i <= width || i == n,
            out@ == Seq::new((i - n) as nat, |k: int| ' '),
        decreases width - i,
    {
        out.push(' ');
        i += 1;
        assert(out@ =~= Seq::new((i - n) as nat, |k: int| ' '));
    }
    out.append(s);
    out
}

/// Whether a character is white space.
pub open spec fn is_space(c: char) -> bool {
    ||| '\u{9}' <= c <= '\u{d}'
    ||| c == ' '
    ||| c == '\u{85}'
    ||| c == '\u{a0}'
    ||| c == '\u{1680}'
    ||| '\u{2000}' <= c <= '\u{200a}'
    ||| c == '\u{2028}'
    ||| c == '\u{2029}'
    ||| c == '\u{202f}'
    ||| c == '\u{205f}'
    ||| c == '\u{3000}'
}

/// Whether a character is white space.
pub fn space(c: char) -> (r: bool)
    ensures
        r == is_space(c),
{
    ('\u{9}' <= c && c <= '\u{d}') || c == ' ' || c == '\u{85}' || c == '\u{a0}' || c == '\u{1680}'
        || ('\u{2000}' <= c && c <= '\u{200a}') || c == '\u{2028}' || c == '\u{2029}' || c
        == '\u{202f}' || c == '\u{205f}' || c == '\u{3000}'
}

/// A text without white space at its end.
pub open spec fn trimmed_end(s: Seq<char>) -> Seq<char>
    decreases s.len(),
{
    if s.len() > 0 && is_space(s.last()) {
        trimmed_end(s.drop_last())
    } else {
        s
    }
}

/// A text without white space at its start.
pub open spec fn trimmed_start(s: Seq<char>) -> Seq<char>
    decreases s.len(),
{
    if s.len() > 0 && is_space(s[0]) {
        trimmed_start(s.drop_first())
    } else {
        s
    }
}

/// A text without white space around it.
pub open spec fn trimmed(s: Seq<char>) -> Seq<char> {
    trimmed_end(trimmed_start(s))
}

/// Whether a text is made of spaces, tabs and the ends of lines.
pub open spec fn is_padding(s: Seq<char>) -> bool {
    forall|i: int|
        0 <= i < s.len() ==> #[trigger] s[i] == ' ' || s[i] == '\t' || s[i] == '\n' || s[i] == '\r'
}

/// Padding at the start of a text is taken away.
proof fn lemma_trimmed_start(a: Seq<char>, s: Seq<char>)
    requires
        is_padding(a),
        s.len() == 0 || !is_space(s[0]),
    ensures
        trimmed_start(a + s) == s,
    decreases a.len(),
{
    let all = a + s;
    if a.len() == 0 {
        assert(all =~= s);
    } else {
        let rest = a.drop_first();
        assert(is_padding(rest)) by {
            assert forall|i: int| 0 <= i < rest.len() implies #[trigger] rest[i] == ' ' || rest[i]
                == '\t' || rest[i] == '\n' || rest[i] == '\r' by {
                assert(rest[i] == a[i + 1]);
            }
        }
        lemma_trimmed_start(rest, s);
        assert(all[0] == a[0]);
        assert(all.drop_first() =~= rest + s);
    }
}

/// Padding at the end of a text is taken away.
proof fn lemma_trimmed_end(s: Seq<char>, b: Seq<char>)
    requires
        is_padding(b),
        s.len() == 0 || !is_space(s.last()),
    ensures
        trimmed_end(s + b) == s,
    decreases b.len(),
{
    let all = s + b;
    if b.len() == 0 {
        assert(all =~= s);
    } else {
        let front = b.drop_last();
        assert(is_padding(front)) by {
            assert forall|i: int| 0 <= i < front.len() implies #[trigger] front[i] == ' ' || front[i]
                == '\t' || front[i] == '\n' || front[i] == '\r' by {
                assert(front[i] == b[i]);
            }
        }
        lemma_trimmed_end(s, front);
        assert(all.last() == b[b.len() - 1]);
        assert(all.drop_last() =~= s + front);
    }
}

/// Padding around a text that starts and ends with something else is taken away, and nothing of the
/// text.
pub proof fn law_padding_is_trimmed(a: Seq<char>, s: Seq<char>, b: Seq<char>)
    requires
        is_padding(a),
        is_padding(b),
        s.len() > 0,
        '!' <= s[0] <= '~',
        '!' <= s.last() <= '~',
    ensures
        trimmed(a + s + b) == s,
{
    let tail = s + b;
    assert(tail[0] == s[0]);
    assert(a + s + b =~= a + tail);
    lemma_trimmed_start(a, tail);
    lemma_trimmed_end(s, b);
}

/// Takes the white space around a text away.
pub fn trim(s: &[char]) -> (r: Vec<char>)
    ensures
        r@ == trimmed(s@),
{
    let mut i: usize = 0;
    assert(s@.skip(0) =~= s@);
    while i < s.len() && space(s[i])
        invariant
            i <= s.len(),
            trimmed_start(s@.skip(i as int)) == trimmed_start(s@),
        decreases s.len() - i,
    {
        assert(s@.skip(i as int)[0] == s@[i as int]);
        assert(s@.skip(i as int).drop_first() =~= s@.skip(i + 1));
        i += 1;
    }
    let ghost start = s@.skip(i as int);
    if i < s.len() {
        assert(start[0] == s@[i as int]);
    }
    assert(trimmed_start(s@) == start);
    let mut n: usize = s.len();
    assert(s@.subrange(i as int, n as int) =~= start);
    while n > i && space(s[n - 1])
        invariant
            i <= n <= s.len(),
            trimmed_end(s@.subrange(i as int, n as int)) == trimmed_end(start),
        decreases n,
    {
        assert(s@.subrange(i as int, n as int).last() == s@[n - 1]);
        assert(s@.subrange(i as int, n as int).drop_last() =~= s@.subrange(i as int, n - 1));
        n -= 1;
    }
    if n > i {
        assert(s@.subrange(i as int, n as int).last() == s@[n - 1]);
    }
    part_of(s, i, n)
}

/// Whether a character is ASCII white space.
pub open spec fn is_ascii_space(c: char) -> bool {
    c == ' ' || c == '\t' || c == '\n' || c == '\u{c}' || c == '\r'
}

/// The words of a text: the longest runs of characters that are no ASCII white space.
pub open spec fn words(s: Seq<char>) -> Seq<Seq<char>>
    decreases s.len(),
{
    if s.len() == 0 {
        Seq::empty()
    } else {
        let front = words(s.drop_last());
        if is_ascii_space(s.last()) {
            front
        } else if s.len() == 1 || is_ascii_space(s[s.len() - 2]) {
            front.push(seq![s.last()])
        } else {
            front.drop_last().push(front.last().push(s.last()))
        }
    }
}

/// A text that ends in a character that is no white space has a word.
proof fn lemma_words_nonempty(s: Seq<char>)
    requires
        s.len() > 0,
        !is_ascii_space(s.last()),
    ensures
        words(s).len() > 0,
    decreases s.len(),
{
}

/// Whether a text is a word: it is not empty and holds no ASCII white space.
pub open spec fn is_word(s: Seq<char>) -> bool {
    s.len() > 0 && forall|i: int|
        0 <= i < s.len() ==> #[trigger] s[i] != ' ' && s[i] != '\t' && s[i] != '\n' && s[i] != '\r'
            && s[i] != '\u{c}'
}

/// A word after the end of a text or after a space is one more word.
proof fn lemma_words_append(s: Seq<char>, w: Seq<char>)
    requires
        s.len() == 0 || is_ascii_space(s.last()),
        is_word(w),
    ensures
        words(s + w) == words(s).push(w),
    decreases w.len(),
{
    let all = s + w;
    let front = w.drop_last();
    assert(all.drop_last() =~= s + front);
    assert(all.last() == w.last());
    assert(!is_ascii_space(w[w.len() - 1]));
    if w.len() == 1 {
        assert(s + front =~= s);
        assert(w =~= seq![w.last()]);
        if s.len() > 0 {
            assert(all[all.len() - 2] == s.last());
        }
    } else {
        assert(is_word(front)) by {
            assert forall|i: int| 0 <= i < front.len() implies !is_ascii_space(
                #[trigger] front[i],
            ) by {
                assert(front[i] == w[i]);
            }
        }
        lemma_words_append(s, front);
        assert(all[all.len() - 2] == w[w.len() - 2]);
        assert(!is_ascii_space(w[w.len() - 2]));
        let before = words(s).push(front);
        assert(before.drop_last() =~= words(s));
        assert(before.last() == front);
        assert(front.push(w.last()) =~= w);
    }
}

/// The words of words with spaces between them are those words.
pub proof fn lemma_words_join(parts: Seq<Seq<char>>)
    requires
        forall|i: int| 0 <= i < parts.len() ==> is_word(#[trigger] parts[i]),
    ensures
        words(join(parts, seq![' '])) == parts,
    decreases parts.len(),
{
    if parts.len() == 0 {
        assert(words(join(parts, seq![' '])) =~= parts);
    } else {
        let front = parts.drop_last();
        assert forall|i: int| 0 <= i < front.len() implies is_word(#[trigger] front[i]) by {
            assert(front[i] == parts[i]);
        }
        lemma_words_join(front);
        assert(is_word(parts[parts.len() - 1]));
        if parts.len() == 1 {
            let none = Seq::<char>::empty();
            lemma_words_append(none, parts[0]);
            assert(none + parts[0] =~= parts[0]);
            assert(words(none).push(parts[0]) =~= parts);
        } else {
            let spaced = join(front, seq![' ']) + seq![' '];
            assert(spaced.drop_last() =~= join(front, seq![' ']));
            assert(spaced.last() == ' ');
            lemma_words_append(spaced, parts.last());
            assert(front.push(parts.last()) =~= parts);
        }
    }
}

/// The words of a text.
pub fn split_words(s: &[char]) -> (r: Vec<String>)
    ensures
        texts(r@) == words(s@),
{
    let mut out: Vec<String> = Vec::new();
    let mut i: usize = 0;
    assert(texts(out@) =~= words(s@.take(0)));
    while i < s.len()
        invariant
            i <= s.len(),
            texts(out@) == words(s@.take(i as int)),
        decreases s.len() - i,
    {
        let ghost t = s@.take(i + 1);
        let ghost before = texts(out@);
        assert(t.drop_last() =~= s@.take(i as int));
        assert(t.last() == s@[i as int]);
        let c = s[i];
        if !(c == ' ' || c == '\t' || c == '\n' || c == '\u{c}' || c == '\r') {
            let starts = if i == 0 {
                true
            } else {
                assert(t[t.len() - 2] == s@[i - 1]);
                let p = s[i - 1];
                p == ' ' || p == '\t' || p == '\n' || p == '\u{c}' || p == '\r'
            };
            if starts {
                let mut word = String::new();
                word.push(c);
                assert(word@ =~= seq![c]);
                out.push(word);
                assert(texts(out@) =~= before.push(seq![c]));
            } else {
                proof {
                    assert(s@.take(i as int).last() == s@[i - 1]);
                    lemma_words_nonempty(s@.take(i as int));
                }
                assert(before.len() == out.len());
                let mut word = out.pop().unwrap();
                assert(word@ == before.last());
                word.push(c);
                let ghost longer = word@;
                out.push(word);
                assert(texts(out@) =~= before.drop_last().push(longer));
            }
        }
        i += 1;
    }
    assert(s@.take(i as int) =~= s@);
    out
}

/// Words with gaps before, between and after them.
pub open spec fn spaced(gaps: Seq<Seq<char>>, parts: Seq<Seq<char>>) -> Seq<char>
    decreases parts.len(),
{
    if parts.len() == 0 {
        gaps[0]
    } else {
        spaced(gaps.drop_last(), parts.drop_last()) + parts.last() + gaps.last()
    }
}

/// Whether a text is made of ASCII white space.
pub open spec fn is_gap(s: Seq<char>) -> bool {
    forall|i: int|
        0 <= i < s.len() ==> #[trigger] s[i] == ' ' || s[i] == '\t' || s[i] == '\n' || s[i] == '\r'
            || s[i] == '\u{c}'
}

/// White space at the end of a text makes no words.
proof fn lemma_words_gap(s: Seq<char>, gap: Seq<char>)
    requires
        is_gap(gap),
    ensures
        words(s + gap) == words(s),
    decreases gap.len(),
{
    if gap.len() == 0 {
        assert(s + gap =~= s);
    } else {
        let shorter = gap.drop_last();
        assert(is_gap(shorter)) by {
            assert forall|i: int| 0 <= i < shorter.len() implies is_ascii_space(
                #[trigger] shorter[i],
            ) by {
                assert(shorter[i] == gap[i]);
            }
        }
        lemma_words_gap(s, shorter);
        assert((s + gap).drop_last() =~= s + shorter);
        assert((s + gap).last() == gap[gap.len() - 1]);
    }
}

/// However words are set apart by white space, and whatever of it stands around them, they are the
/// words of the text.
pub proof fn law_words_are_read(gaps: Seq<Seq<char>>, parts: Seq<Seq<char>>)
    requires
        gaps.len() == parts.len() + 1,
        forall|i: int| 0 <= i < parts.len() ==> is_word(#[trigger] parts[i]),
        forall|i: int| 0 <= i < gaps.len() ==> is_gap(#[trigger] gaps[i]),
        forall|i: int| 0 < i < parts.len() ==> (#[trigger] gaps[i]).len() > 0,
    ensures
        words(spaced(gaps, parts)) == parts,
    decreases parts.len(),
{
    if parts.len() == 0 {
        let none = Seq::<char>::empty();
        assert(none + gaps[0] =~= gaps[0]);
        lemma_words_gap(none, gaps[0]);
        assert(words(none) =~= parts);
    } else {
        let g = gaps.drop_last();
        let p = parts.drop_last();
        let start = spaced(g, p);
        assert forall|i: int| 0 <= i < p.len() implies is_word(#[trigger] p[i]) by {
            assert(p[i] == parts[i]);
        }
        assert forall|i: int| 0 <= i < g.len() implies is_gap(#[trigger] g[i]) by {
            assert(g[i] == gaps[i]);
        }
        assert forall|i: int| 0 < i < p.len() implies (#[trigger] g[i]).len() > 0 by {
            assert(g[i] == gaps[i]);
        }
        law_words_are_read(g, p);
        let last = parts[parts.len() - 1];
        assert(start.len() == 0 || is_ascii_space(start.last())) by {
            let gap = g[g.len() - 1];
            assert(gap == gaps[gaps.len() - 2]);
            if p.len() > 0 {
                assert(gaps[p.len() as int].len() > 0);
                assert(start.last() == gap.last());
                assert(is_ascii_space(gap[gap.len() - 1]));
            } else if start.len() > 0 {
                assert(is_ascii_space(gap[gap.len() - 1]));
            }
        }
        lemma_words_append(start, last);
        lemma_words_gap(start + last, gaps[gaps.len() - 1]);
        assert(parts =~= p.push(last));
    }
}

/// Two texts one after the other.
pub fn concat(a: &str, b: &str) -> (r: String)
    ensures
        r@ == a@ + b@,
{
    let mut s = a.to_owned();
    s.append(b);
    s
}

/// A number is read back from its decimal text, unless it exceeds the limit.
pub proof fn law_numbers_read_back(n: nat, limit: nat)
    ensures
        bounded_number(decimal(n), limit) == if n <= limit {
            Some(n)
        } else {
            None
        },
{
    lemma_number_value(n);
}

/// The decimal text of a number is made of digits, and has its value.
proof fn lemma_number_value(n: nat)
    ensures
        all_digits(decimal(n)),
        digits_value(decimal(n)) == n,
    decreases n,
{
    let s = decimal(n);
    if n < 10 {
        assert(s.drop_last() =~= Seq::empty());
        assert(digits_value(Seq::<char>::empty()) == 0);
        assert(s.last() == digit_char(n as int));
    } else {
        lemma_number_value(n / 10);
        let front = decimal(n / 10);
        assert(s.drop_last() =~= front);
        assert forall|i: int| 0 <= i < s.len() implies '0' <= #[trigger] s[i] <= '9' by {
            if i < front.len() {
                assert(front[i] == s[i]);
            }
        }
    }
}

} // verus!
