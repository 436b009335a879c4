//! Character-level helpers shared by the renderer and the assembler:
//! whitespace-delimited word counting, decimal digit printing, lexicographic
//! ordering of character sequences, and splitting on `|`.

use vstd::prelude::*;

verus! {

/// The separators for word counting: the ASCII whitespace characters.
pub open spec fn is_word_sep(c: char) -> bool {
    c == ' ' || c == '\t' || c == '\n' || c == '\r' || c == '\u{c}'
}

/// The number of maximal runs of non-whitespace characters in `s`.
pub open spec fn word_count_of(s: Seq<char>) -> nat
    decreases s.len(),
{
    if s.len() == 0 {
        0
    } else {
        word_count_of(s.drop_last()) + if !is_word_sep(s.last()) && (s.len() == 1
            || is_word_sep(s[s.len() - 2])) {
            1nat
        } else {
            0nat
        }
    }
}

pub proof fn lemma_word_count_le_len(s: Seq<char>)
    ensures
        word_count_of(s) <= s.len(),
    decreases s.len(),
{
    if s.len() > 0 {
        lemma_word_count_le_len(s.drop_last());
    }
}

proof fn lemma_word_count_take_step(s: Seq<char>, i: int)
    requires
        0 <= i < s.len(),
    ensures
        word_count_of(s.take(i + 1)) == word_count_of(s.take(i)) + if !is_word_sep(s[i]) && (i == 0
            || is_word_sep(s[i - 1])) {
            1nat
        } else {
            0nat
        },
{
    assert(s.take(i + 1).drop_last() =~= s.take(i));
    assert(s.take(i + 1).last() == s[i]);
}

fn is_sep(c: char) -> (r: bool)
    ensures
        r == is_word_sep(c),
{
    c == ' ' || c == '\t' || c == '\n' || c == '\r' || c == '\u{c}'
}

/// Counts the whitespace-delimited words of `s`.
pub fn count_words(s: &str) -> (n: usize)
    ensures
        n == word_count_of(s@),
{
    let len = s.unicode_len();
    let mut n: usize = 0;
    let mut i: usize = 0;
    let mut prev_sep: bool = true;
    while i < len
        invariant
            0 <= i <= len,
            len == s@.len(),
            n == word_count_of(s@.take(i as int)),
            prev_sep == (i == 0 || is_word_sep(s@[i as int - 1])),
        decreases len - i,
    {
        let c = s.get_char(i);
        proof {
            lemma_word_count_take_step(s@, i as int);
            lemma_word_count_le_len(s@.take(i as int));
        }
        if !is_sep(c) && prev_sep {
            n = n + 1;
        }
        prev_sep = is_sep(c);
        i = i + 1;
    }
    proof {
        assert(s@.take(len as int) =~= s@);
    }
    n
}

/// The character for a single decimal digit.
pub open spec fn digit_char(d: nat) -> char {
    if d == 0 {
        '0'
    } else if d == 1 {
        '1'
    } else if d == 2 {
        '2'
    } else if d == 3 {
        '3'
    } else if d == 4 {
        '4'
    } else if d == 5 {
        '5'
    } else if d == 6 {
        '6'
    } else if d == 7 {
        '7'
    } else if d == 8 {
        '8'
    } else {
        '9'
    }
}

/// The decimal digits of `n`, most significant first.
pub open spec fn dec_digits_of(n: nat) -> Seq<char>
    decreases n,
{
    if n < 10 {
        seq![digit_char(n)]
    } else {
        dec_digits_of(n / 10).push(digit_char(n % 10))
    }
}

/// The decimal rendering of a possibly negative number.
pub open spec fn int_digits_of(n: int) -> Seq<char> {
    if n < 0 {
        seq!['-'] + dec_digits_of((-n) as nat)
    } else {
        dec_digits_of(n as nat)
    }
}

fn push_digit(out: &mut String, d: u64)
    requires
        d < 10,
    ensures
        final(out)@ == old(out)@ + seq![digit_char(d as nat)],
{
    if d == 0 {
        out.append("0");
        proof {
            reveal_strlit("0");
            assert(out@ =~= old(out)@ + seq![digit_char(d as nat)]);
        }
    } else if d == 1 {
        out.append("1");
        proof {
            reveal_strlit("1");
            assert(out@ =~= old(out)@ + seq![digit_char(d as nat)]);
        }
    } else if d == 2 {
        out.append("2");
        proof {
            reveal_strlit("2");
            assert(out@ =~= old(out)@ + seq![digit_char(d as nat)]);
        }
    } else if d == 3 {
        out.append("3");
        proof {
            reveal_strlit("3");
            assert(out@ =~= old(out)@ + seq![digit_char(d as nat)]);
        }
    } else if d == 4 {
        out.append("4");
        proof {
            reveal_strlit("4");
            assert(out@ =~= old(out)@ + seq![digit_char(d as nat)]);
        }
    } else if d == 5 {
        out.append("5");
        proof {
            reveal_strlit("5");
            assert(out@ =~= old(out)@ + seq![digit_char(d as nat)]);
        }
    } else if d == 6 {
        out.append("6");
        proof {
            reveal_strlit("6");
            assert(out@ =~= old(out)@ + seq![digit_char(d as nat)]);
        }
    } else if d == 7 {
        out.append("7");
        proof {
            reveal_strlit("7");
            assert(out@ =~= old(out)@ + seq![digit_char(d as nat)]);
        }
    } else if d == 8 {
        out.append("8");
        proof {
            reveal_strlit("8");
            assert(out@ =~= old(out)@ + seq![digit_char(d as nat)]);
        }
    } else {
        out.append("9");
        proof {
            reveal_strlit("9");
            assert(out@ =~= old(out)@ + seq![digit_char(d as nat)]);
        }
    }
}

/// Appends the decimal digits of `n` to `out`.
pub fn push_u64(out: &mut String, n: u64)
    ensures
        final(out)@ == old(out)@ + dec_digits_of(n as nat),
    decreases n,
{
    if n < 10 {
        push_digit(out, n);
    } else {
        push_u64(out, n / 10);
        push_digit(out, n % 10);
        proof {
            assert(out@ =~= old(out)@ + dec_digits_of(n as nat));
        }
    }
}

/// Appends the decimal rendering of `n`, with a leading minus sign when negative.
pub fn push_i32(out: &mut String, n: i32)
    ensures
        final(out)@ == old(out)@ + int_digits_of(n as int),
{
    if n < 0 {
        out.append("-");
        proof {
            reveal_strlit("-");
        }
        let m: u64 = (-(n as i64)) as u64;
        push_u64(out, m);
        proof {
            assert(out@ =~= old(out)@ + int_digits_of(n as int));
        }
    } else {
        push_u64(out, n as u64);
    }
}

/// Compares two strings by equality of their character sequences.
pub fn str_eq(a: &str, b: &str) -> (r: bool)
    ensures
        r == (a@ == b@),
{
    let alen = a.unicode_len();
    let blen = b.unicode_len();
    if alen != blen {
        return false;
    }
    let mut i: usize = 0;
    while i < alen
        invariant
            0 <= i <= alen,
            alen == a@.len(),
            alen == b@.len(),
            forall|j: int| 0 <= j < i ==> a@[j] == b@[j],
        decreases alen - i,
    {
        if a.get_char(i) != b.get_char(i) {
            return false;
        }
        i = i + 1;
    }
    proof {
        assert(a@ =~= b@);
    }
    true
}

/// Lexicographic order on character sequences, by Unicode scalar value,
/// with a prefix ordered before its extensions.
pub open spec fn lex_le(a: Seq<char>, b: Seq<char>) -> bool
    decreases a.len(),
{
    if a.len() == 0 {
        true
    } else if b.len() == 0 {
        false
    } else if a[0] == b[0] {
        lex_le(a.drop_first(), b.drop_first())
    } else {
        (a[0] as u32) < (b[0] as u32)
    }
}

pub proof fn lemma_lex_le_total(a: Seq<char>, b: Seq<char>)
    ensures
        lex_le(a, b) || lex_le(b, a),
    decreases a.len(),
{
    if a.len() > 0 && b.len() > 0 {
        if a[0] == b[0] {
            lemma_lex_le_total(a.drop_first(), b.drop_first());
        } else {
            vstd::utf8::char_u32_cast(a[0], a[0] as u32);
            vstd::utf8::char_u32_cast(b[0], b[0] as u32);
        }
    }
}

pub proof fn lemma_lex_le_trans(a: Seq<char>, b: Seq<char>, c: Seq<char>)
    requires
        lex_le(a, b),
        lex_le(b, c),
    ensures
        lex_le(a, c),
    decreases a.len(),
{
    if a.len() > 0 {
        assert(b.len() > 0);
        assert(c.len() > 0);
        if a[0] == b[0] && b[0] == c[0] {
            lemma_lex_le_trans(a.drop_first(), b.drop_first(), c.drop_first());
        } else if a[0] == b[0] {
            assert((b[0] as u32) < (c[0] as u32));
        } else if b[0] == c[0] {
            assert((a[0] as u32) < (b[0] as u32));
        } else {
            assert((a[0] as u32) < (b[0] as u32) < (c[0] as u32));
        }
    }
}

proof fn lemma_lex_le_skip(a: Seq<char>, b: Seq<char>, i: int)
    requires
        0 <= i <= a.len(),
        i <= b.len(),
        forall|j: int| 0 <= j < i ==> a[j] == b[j],
    ensures
        lex_le(a, b) == lex_le(a.skip(i), b.skip(i)),
    decreases i,
{
    if i == 0 {
        assert(a.skip(0) =~= a);
        assert(b.skip(0) =~= b);
    } else {
        assert(a.len() > 0 && b.len() > 0 && a[0] == b[0]);
        lemma_lex_le_skip(a.drop_first(), b.drop_first(), i - 1);
        assert(a.drop_first().skip(i - 1) =~= a.skip(i));
        assert(b.drop_first().skip(i - 1) =~= b.skip(i));
    }
}

/// The segments of `s` between `|` characters; always at least one segment.
pub open spec fn split_on_bars(s: Seq<char>) -> Seq<Seq<char>>
    decreases s.len(),
{
    if s.len() == 0 {
        seq![Seq::<char>::empty()]
    } else if s[0] == '|' {
        seq![Seq::<char>::empty()] + split_on_bars(s.drop_first())
    } else {
        let r = split_on_bars(s.drop_first());
        seq![seq![s[0]] + r[0]] + r.drop_first()
    }
}

pub proof fn lemma_split_len(s: Seq<char>)
    ensures
        split_on_bars(s).len() >= 1,
    decreases s.len(),
{
    if s.len() > 0 {
        lemma_split_len(s.drop_first());
    }
}

/// A sequence without bars splits into itself alone.
proof fn lemma_split_nobar(s: Seq<char>)
    requires
        forall|j: int| 0 <= j < s.len() ==> s[j] != '|',
    ensures
        split_on_bars(s) =~= seq![s],
    decreases s.len(),
{
    if s.len() > 0 {
        assert(s[0] != '|');
        assert(forall|j: int|
            0 <= j < s.drop_first().len() ==> #[trigger] s.drop_first()[j] == s[j + 1]);
        lemma_split_nobar(s.drop_first());
        let r = split_on_bars(s.drop_first());
        assert(r == seq![s.drop_first()]);
        assert(split_on_bars(s) == seq![seq![s[0]] + r[0]] + r.drop_first());
        assert(seq![s[0]] + s.drop_first() =~= s);
        assert(r.drop_first() =~= Seq::<Seq<char>>::empty());
        assert(seq![seq![s[0]] + r[0]] + r.drop_first() =~= seq![s]);
    } else {
        assert(s =~= Seq::<char>::empty());
    }
}

/// Peels the segment before the first bar off the split.
proof fn lemma_split_peel(s: Seq<char>, i: int)
    requires
        0 <= i < s.len(),
        s[i] == '|',
        forall|j: int| 0 <= j < i ==> s[j] != '|',
    ensures
        split_on_bars(s) =~= seq![s.take(i)] + split_on_bars(s.skip(i + 1)),
    decreases i,
{
    if i == 0 {
        assert(s.drop_first() =~= s.skip(1));
        assert(s.take(0) =~= Seq::<char>::empty());
    } else {
        assert(s[0] != '|');
        let d = s.drop_first();
        lemma_split_peel(d, i - 1);
        let rd = split_on_bars(d);
        assert(rd[0] == d.take(i - 1));
        assert(rd.drop_first() =~= split_on_bars(d.skip(i)));
        assert(d.skip(i) =~= s.skip(i + 1));
        assert(seq![s[0]] + rd[0] =~= s.take(i));
        assert(split_on_bars(s) == seq![seq![s[0]] + rd[0]] + rd.drop_first());
        assert(seq![seq![s[0]] + rd[0]] + rd.drop_first() =~= seq![s.take(i)] + split_on_bars(
            s.skip(i + 1),
        ));
    }
}

/// Splits a string on `|`; mirrors `split_on_bars` of its characters.
pub fn split_bars(s: &str) -> (parts: Vec<String>)
    ensures
        parts@.map_values(|p: String| p@) == split_on_bars(s@),
{
    let len = s.unicode_len();
    let mut parts: Vec<String> = Vec::new();
    let mut start: usize = 0;
    let mut i: usize = 0;
    proof {
        assert(s@.skip(0) =~= s@);
        assert(parts@.map_values(|p: String| p@) =~= Seq::<Seq<char>>::empty());
    }
    while i < len
        invariant
            0 <= start <= i <= len,
            len == s@.len(),
            split_on_bars(s@) =~= parts@.map_values(|p: String| p@) + split_on_bars(
                s@.skip(start as int),
            ),
            forall|j: int| start <= j < i ==> s@[j] != '|',
        decreases len - i,
    {
        let c = s.get_char(i);
        if c == '|' {
            let piece = s.substring_char(start, i).to_owned();
            proof {
                let t = s@.skip(start as int);
                lemma_split_peel(t, i - start);
                assert(t.take(i - start) =~= s@.subrange(start as int, i as int));
                assert(t.skip(i - start + 1) =~= s@.skip(i as int + 1));
                assert((parts@.push(piece)).map_values(|p: String| p@) =~= parts@.map_values(
                    |p: String| p@,
                ) + seq![piece@]);
                assert(parts@.map_values(|p: String| p@) + (seq![t.take(i - start)]
                    + split_on_bars(t.skip(i - start + 1))) =~= (parts@.map_values(
                    |p: String| p@,
                ) + seq![piece@]) + split_on_bars(s@.skip(i as int + 1)));
            }
            parts.push(piece);
            start = i + 1;
        }
        i = i + 1;
    }
    let piece = s.substring_char(start, len).to_owned();
    proof {
        let t = s@.skip(start as int);
        lemma_split_nobar(t);
        assert(t =~= s@.subrange(start as int, len as int));
        assert((parts@.push(piece)).map_values(|p: String| p@) =~= parts@.map_values(
            |p: String| p@,
        ) + seq![piece@]);
    }
    parts.push(piece);
    proof {
        assert(parts@.map_values(|p: String| p@) =~= split_on_bars(s@));
    }
    parts
}

/// Decides `lex_le` on two strings.
pub fn str_lex_le(a: &str, b: &str) -> (r: bool)
    ensures
        r == lex_le(a@, b@),
{
    let alen = a.unicode_len();
    let blen = b.unicode_len();
    let mut i: usize = 0;
    loop
        invariant
            0 <= i <= alen,
            i <= blen,
            alen == a@.len(),
            blen == b@.len(),
            forall|j: int| 0 <= j < i ==> a@[j] == b@[j],
        decreases alen - i,
    {
        proof {
            lemma_lex_le_skip(a@, b@, i as int);
        }
        if i >= alen {
            assert(a@.skip(i as int) =~= Seq::<char>::empty());
            return true;
        }
        if i >= blen {
            assert(b@.skip(i as int) =~= Seq::<char>::empty());
            return false;
        }
        let ca = a.get_char(i);
        let cb = b.get_char(i);
        assert(a@.skip(i as int)[0] == a@[i as int]);
        assert(b@.skip(i as int)[0] == b@[i as int]);
        if ca != cb {
            assert(lex_le(a@.skip(i as int), b@.skip(i as int)) == ((ca as u32) < (cb as u32)));
            return (ca as u32) < (cb as u32);
        }
        assert(a@.skip(i as int).drop_first() =~= a@.skip(i as int + 1));
        assert(b@.skip(i as int).drop_first() =~= b@.skip(i as int + 1));
        i = i + 1;
    }
}

} // verus!
