//! Text helpers over the character view of strings.
use vstd::prelude::*;
use vstd::string::*;

verus! {

/// The view of an optional string.
pub open spec fn opt_str(o: Option<String>) -> Option<Seq<char>> {
    match o {
        Some(s) => Some(s@),
        None => None,
    }
}

/// `std`'s `String::push`: appends one character.
#[verifier::external_body]
pub(crate) fn push_char(s: &mut String, c: char)
    ensures
        final(s)@ == old(s)@.push(c),
{
    s.push(c);
}

pub fn copy_string(s: &String) -> (r: String)
    ensures
        r == *s,
        r@ == s@,
{
    s.clone()
}

pub fn copy_opt_string(o: &Option<String>) -> (r: Option<String>)
    ensures
        r == *o,
        opt_str(r) == opt_str(*o),
{
    match o {
        Some(s) => Some(copy_string(s)),
        None => None,
    }
}

/// The characters of a string, in order.
pub fn chars_of(s: &str) -> (r: Vec<char>)
    ensures
        r@ == s@,
{
    let mut r: Vec<char> = Vec::new();
    for c in it: s.chars()
        invariant
            it.seq() == s@,
            r@ == it.seq().take(it.index() as int),
    {
        r.push(c);
    }
    r
}

/// A string made of the given characters.
pub fn string_of(cs: &Vec<char>) -> (r: String)
    ensures
        r@ == cs@,
{
    let mut r = String::new();
    let mut k: usize = 0;
    while k < cs.len()
        invariant
            k <= cs@.len(),
            r@ == cs@.take(k as int),
        decreases cs@.len() - k,
    {
        push_char(&mut r, cs[k]);
        assert(cs@.take(k + 1) == cs@.take(k as int).push(cs@[k as int]));
        k = k + 1;
    }
    assert(cs@.take(cs@.len() as int) == cs@);
    r
}

/// The decimal digit character for `d < 10`.
pub open spec fn digit_char(d: nat) -> char {
    if d == 0 {
        '0'
    } else if d == 1 {
        '1'
    } else if d == 2 {
        '2'
    } else if d == 3 {
        '3'
    } else if d == 4 {
        '4'
    } else if d == 5 {
        '5'
    } else if d == 6 {
        '6'
    } else if d == 7 {
        '7'
    } else if d == 8 {
        '8'
    } else {
        '9'
    }
}

/// The decimal representation of `n`, without leading zeros (`"0"` for zero).
pub open spec fn decimal(n: nat) -> Seq<char>
    decreases n,
{
    if n < 10 {
        seq![digit_char(n)]
    } else {
        decimal(n / 10).push(digit_char(n % 10))
    }
}

fn digit(d: usize) -> (c: char)
    requires
        d < 10,
    ensures
        c == digit_char(d as nat),
{
    if d == 0 {
        '0'
    } else if d == 1 {
        '1'
    } else if d == 2 {
        '2'
    } else if d == 3 {
        '3'
    } else if d == 4 {
        '4'
    } else if d == 5 {
        '5'
    } else if d == 6 {
        '6'
    } else if d == 7 {
        '7'
    } else if d == 8 {
        '8'
    } else {
        '9'
    }
}

/// Appends the decimal representation of `n` to `s`.
pub fn push_decimal(s: &mut String, n: usize)
    ensures
        final(s)@ == old(s)@ + decimal(n as nat),
    decreases n,
{
    if n < 10 {
        push_char(s, digit(n));
    } else {
        push_decimal(s, n / 10);
        push_char(s, digit(n % 10));
    }
}

/// The parts joined with a newline between each two.
pub open spec fn join_lines(parts: Seq<Seq<char>>) -> Seq<char>
    decreases parts.len(),
{
    if parts.len() == 0 {
        Seq::empty()
    } else if parts.len() == 1 {
        parts[0]
    } else {
        join_lines(parts.drop_last()).push('\n') + parts.last()
    }
}

/// The pieces of `s` between newlines, the last one included (so `""`
/// gives one empty piece and `"a\n"` gives `"a"` and an empty piece).
pub open spec fn split_newlines(s: Seq<char>) -> Seq<Seq<char>>
    decreases s.len(),
{
    if s.len() == 0 {
        seq![Seq::empty()]
    } else {
        let r = split_newlines(s.drop_last());
        if s.last() == '\n' {
            r.push(Seq::empty())
        } else {
            r.update(r.len() - 1, r.last().push(s.last()))
        }
    }
}

/// A line ended by `\r\n` loses its `\r`.
pub open spec fn strip_cr(line: Seq<char>) -> Seq<char> {
    if line.len() > 0 && line.last() == '\r' {
        line.drop_last()
    } else {
        line
    }
}

/// The lines of `s` as `str::lines` gives them: split at `\n` or `\r\n`,
/// the line terminators left out, and no empty last line after a final
/// terminator. A `\r` at the very end of `s` stays.
pub open spec fn lines_of(s: Seq<char>) -> Seq<Seq<char>> {
    let pieces = split_newlines(s);
    let ended = pieces.drop_last().map_values(|l: Seq<char>| strip_cr(l));
    if pieces.last().len() > 0 {
        ended.push(pieces.last())
    } else {
        ended
    }
}

pub proof fn lemma_split_newlines_nonempty(s: Seq<char>)
    ensures
        split_newlines(s).len() >= 1,
    decreases s.len(),
{
    if s.len() > 0 {
        lemma_split_newlines_nonempty(s.drop_last());
    }
}

/// The lines of a string, each as its characters.
pub fn lines(text: &str) -> (r: Vec<Vec<char>>)
    ensures
        r@.len() == lines_of(text@).len(),
        forall|k: int| 0 <= k < r@.len() ==> (#[trigger] r@[k])@ == lines_of(text@)[k],
{
    let chars = chars_of(text);
    let mut pieces: Vec<Vec<char>> = Vec::new();
    let mut cur: Vec<char> = Vec::new();
    let mut i: usize = 0;
    while i < chars.len()
        invariant
            i <= chars@.len(),
            chars@ == text@,
            pieces@.len() + 1 == split_newlines(chars@.take(i as int)).len(),
            forall|k: int|
                0 <= k < pieces@.len() ==> (#[trigger] pieces@[k])@ == split_newlines(
                    chars@.take(i as int),
                )[k],
            cur@ == split_newlines(chars@.take(i as int)).last(),
        decreases chars@.len() - i,
    {
        proof {
            lemma_split_newlines_nonempty(chars@.take(i as int));
        }
        assert(chars@.take(i + 1).drop_last() =~= chars@.take(i as int));
        let c = chars[i];
        if c == '\n' {
            let done = cur;
            pieces.push(done);
            cur = Vec::new();
            assert(cur@ =~= Seq::<char>::empty());
        } else {
            cur.push(c);
        }
        i = i + 1;
    }
    assert(chars@.take(chars@.len() as int) =~= chars@);
    proof {
        lemma_split_newlines_nonempty(chars@);
    }
    let ghost pieces_spec = split_newlines(chars@);
    let mut r: Vec<Vec<char>> = Vec::new();
    let mut k: usize = 0;
    while k < pieces.len()
        invariant
            k <= pieces@.len(),
            pieces@.len() + 1 == pieces_spec.len(),
            forall|x: int| 0 <= x < pieces@.len() ==> (#[trigger] pieces@[x])@ == pieces_spec[x],
            r@.len() == k,
            forall|x: int| 0 <= x < k ==> (#[trigger] r@[x])@ == strip_cr(pieces_spec[x]),
        decreases pieces@.len() - k,
    {
        let piece = &pieces[k];
        let n = piece.len();
        let mut line: Vec<char> = Vec::new();
        let keep = if n > 0 && piece[n - 1] == '\r' {
            n - 1
        } else {
            n
        };
        let mut j: usize = 0;
        while j < keep
            invariant
                j <= keep <= n,
                n == piece@.len(),
                line@ == piece@.take(j as int),
            decreases keep - j,
        {
            line.push(piece[j]);
            assert(piece@.take(j + 1) == piece@.take(j as int).push(piece@[j as int]));
            j = j + 1;
        }
        assert(line@ =~= strip_cr(piece@));
        r.push(line);
        k = k + 1;
    }
    if cur.len() > 0 {
        r.push(cur);
    }
    assert(lines_of(text@).len() == r@.len());
    r
}

/// `char::is_whitespace`: the Unicode `White_Space` characters.
pub open spec fn is_white_space(c: char) -> bool {
    let n = c as int;
    ||| 0x9 <= n <= 0xd
    ||| n == 0x20
    ||| n == 0x85
    ||| n == 0xa0
    ||| n == 0x1680
    ||| 0x2000 <= n <= 0x200a
    ||| n == 0x2028
    ||| n == 0x2029
    ||| n == 0x202f
    ||| n == 0x205f
    ||| n == 0x3000
}

pub fn is_whitespace(c: char) -> (r: bool)
    ensures
        r == is_white_space(c),
{
    let n = c as u32;
    (0x9 <= n && n <= 0xd) || n == 0x20 || n == 0x85 || n == 0xa0 || n == 0x1680 || (0x2000 <= n
        && n <= 0x200a) || n == 0x2028 || n == 0x2029 || n == 0x202f || n == 0x205f || n == 0x3000
}

/// The index of the first character at or after `i` that is not white space.
pub open spec fn first_non_space_from(s: Seq<char>, i: int) -> int
    decreases s.len() - i,
{
    if i >= s.len() {
        s.len() as int
    } else if is_white_space(s[i]) {
        first_non_space_from(s, i + 1)
    } else {
        i
    }
}

/// The end of the last character before `j` that is not white space (0 when none).
pub open spec fn last_non_space_before(s: Seq<char>, j: int) -> int
    decreases j,
{
    if j <= 0 {
        0
    } else if is_white_space(s[j - 1]) {
        last_non_space_before(s, j - 1)
    } else {
        j
    }
}

/// `str::trim`: `s` without its leading and trailing white space.
pub open spec fn trimmed(s: Seq<char>) -> Seq<char> {
    let a = first_non_space_from(s, 0);
    let b = last_non_space_before(s, s.len() as int);
    if a >= b {
        Seq::empty()
    } else {
        s.subrange(a, b)
    }
}

proof fn lemma_first_non_space_bounds(s: Seq<char>, i: int)
    requires
        0 <= i <= s.len(),
    ensures
        i <= first_non_space_from(s, i) <= s.len(),
    decreases s.len() - i,
{
    if i < s.len() && is_white_space(s[i]) {
        lemma_first_non_space_bounds(s, i + 1);
    }
}

proof fn lemma_last_non_space_bounds(s: Seq<char>, j: int)
    requires
        0 <= j <= s.len(),
    ensures
        0 <= last_non_space_before(s, j) <= j,
    decreases j,
{
    if j > 0 && is_white_space(s[j - 1]) {
        lemma_last_non_space_bounds(s, j - 1);
    }
}

/// The characters of `s` without leading and trailing white space.
pub fn trim_chars(s: &Vec<char>) -> (r: Vec<char>)
    ensures
        r@ == trimmed(s@),
{
    let n = s.len();
    let mut a: usize = 0;
    while a < n && is_whitespace(s[a])
        invariant
            a <= n == s@.len(),
            first_non_space_from(s@, 0) == first_non_space_from(s@, a as int),
        decreases n - a,
    {
        a = a + 1;
    }
    let mut b: usize = n;
    while b > 0 && is_whitespace(s[b - 1])
        invariant
            b <= n == s@.len(),
            last_non_space_before(s@, n as int) == last_non_space_before(s@, b as int),
        decreases b,
    {
        b = b - 1;
    }
    let mut r: Vec<char> = Vec::new();
    if a < b {
        let mut k = a;
        while k < b
            invariant
                a <= k <= b <= n == s@.len(),
                r@ == s@.subrange(a as int, k as int),
            decreases b - k,
        {
            r.push(s[k]);
            assert(s@.subrange(a as int, k + 1) == s@.subrange(a as int, k as int).push(s@[k as int]));
            k = k + 1;
        }
    }
    proof {
        assert(a == first_non_space_from(s@, a as int));
        assert(b == last_non_space_before(s@, b as int));
    }
    r
}

/// Splitting a concatenation: the last piece of `a` joins the first piece of `b`.
pub proof fn lemma_split_append(a: Seq<char>, b: Seq<char>)
    ensures
        split_newlines(a + b) == split_newlines(a).drop_last() + seq![
            split_newlines(a).last() + split_newlines(b)[0],
        ] + split_newlines(b).skip(1),
    decreases b.len(),
{
    lemma_split_newlines_nonempty(a);
    lemma_split_newlines_nonempty(b);
    let sa = split_newlines(a);
    if b.len() == 0 {
        assert(a + b =~= a);
        assert(split_newlines(b) == seq![Seq::<char>::empty()]);
        assert(sa.drop_last() + seq![sa.last() + Seq::<char>::empty()] + seq![Seq::<char>::empty()].skip(1) =~= sa);
    } else {
        let b1 = b.drop_last();
        let c = b.last();
        lemma_split_append(a, b1);
        lemma_split_newlines_nonempty(b1);
        assert((a + b).drop_last() =~= a + b1);
        assert((a + b).last() == c);
        let sb1 = split_newlines(b1);
        let sab1 = split_newlines(a + b1);
        if c == '\n' {
            assert(split_newlines(b) == sb1.push(Seq::empty()));
            assert(split_newlines(b)[0] == sb1[0]);
            assert(split_newlines(b).skip(1) =~= sb1.skip(1).push(Seq::empty()));
            assert(split_newlines(a + b) =~= sa.drop_last() + seq![sa.last() + split_newlines(b)[0]]
                + split_newlines(b).skip(1));
        } else {
            assert(split_newlines(b) == sb1.update(sb1.len() - 1, sb1.last().push(c)));
            if sb1.len() == 1 {
                assert(split_newlines(b)[0] == sb1[0].push(c));
                assert(split_newlines(b).skip(1) =~= Seq::<Seq<char>>::empty());
                assert(sb1.skip(1) =~= Seq::<Seq<char>>::empty());
                assert(sa.last() + sb1[0].push(c) =~= (sa.last() + sb1[0]).push(c));
                assert(split_newlines(a + b) =~= sa.drop_last() + seq![sa.last() + split_newlines(b)[0]]
                    + split_newlines(b).skip(1));
            } else {
                assert(split_newlines(b)[0] == sb1[0]);
                assert(split_newlines(b).skip(1) =~= sb1.skip(1).update(
                    sb1.len() - 2,
                    sb1.last().push(c),
                ));
                assert(split_newlines(a + b) =~= sa.drop_last() + seq![sa.last() + split_newlines(b)[0]]
                    + split_newlines(b).skip(1));
            }
        }
    }
}

/// The lines of a text that ends at a line end (or is empty), followed by
/// another text, are the lines of the one and then the lines of the other.
pub proof fn law_lines_of_concat(a: Seq<char>, b: Seq<char>)
    requires
        a.len() == 0 || a.last() == '\n',
    ensures
        lines_of(a + b) == lines_of(a) + lines_of(b),
{
    lemma_split_append(a, b);
    lemma_split_newlines_nonempty(a);
    lemma_split_newlines_nonempty(b);
    let sa = split_newlines(a);
    let sb = split_newlines(b);
    if a.len() == 0 {
        assert(sa == seq![Seq::<char>::empty()]);
    } else {
        assert(sa == split_newlines(a.drop_last()).push(Seq::empty()));
    }
    assert(sa.last() =~= Seq::<char>::empty());
    assert(sa.last() + sb[0] =~= sb[0]);
    let all = split_newlines(a + b);
    assert(all =~= sa.drop_last() + sb);
    assert(all.drop_last() =~= sa.drop_last() + sb.drop_last());
    assert(all.last() == sb.last());
    let f = |l: Seq<char>| strip_cr(l);
    assert(all.drop_last().map_values(f) =~= sa.drop_last().map_values(f) + sb.drop_last().map_values(f));
    assert(lines_of(a) =~= sa.drop_last().map_values(f));
    if sb.last().len() > 0 {
        assert(lines_of(a + b) =~= lines_of(a) + lines_of(b));
    } else {
        assert(lines_of(a + b) =~= lines_of(a) + lines_of(b));
    }
}

} // verus!
