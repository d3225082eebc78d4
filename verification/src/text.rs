//! Character-level building blocks: canonical decimal numbers, a strict
//! lexicographic order on character sequences, and conversions between
//! strings and character vectors.
use vstd::prelude::*;

verus! {

/// `String::push` appends one character to the end of the string.
pub assume_specification[ String::push ](s: &mut String, c: char)
    ensures
        final(s)@ == old(s)@.push(c),
;

/// `t` occurs in `s` starting at position `pos`.
pub open spec fn occurs_at(s: Seq<char>, pos: int, t: Seq<char>) -> bool {
    &&& 0 <= pos
    &&& pos + t.len() <= s.len()
    &&& s.subrange(pos, pos + t.len()) == t
}

/// A concatenation occurs at `pos` exactly when its first part occurs at
/// `pos` and its second part right behind it.
pub proof fn lemma_occurs_concat(s: Seq<char>, pos: int, a: Seq<char>, b: Seq<char>)
    ensures
        occurs_at(s, pos, a + b) <==> occurs_at(s, pos, a) && occurs_at(s, pos + a.len(), b),
{
    if occurs_at(s, pos, a + b) {
        assert(s.subrange(pos, pos + a.len()) =~= (a + b).subrange(0, a.len() as int));
        assert((a + b).subrange(0, a.len() as int) =~= a);
        assert(s.subrange(pos + a.len(), pos + a.len() + b.len()) =~= (a + b).subrange(
            a.len() as int,
            (a + b).len() as int,
        ));
        assert((a + b).subrange(a.len() as int, (a + b).len() as int) =~= b);
    }
    if occurs_at(s, pos, a) && occurs_at(s, pos + a.len(), b) {
        assert(s.subrange(pos, pos + (a + b).len()) =~= s.subrange(pos, pos + a.len())
            + s.subrange(pos + a.len(), pos + a.len() + b.len()));
    }
}

/// The decimal digits.
pub open spec fn is_digit(c: char) -> bool {
    48 <= c as int <= 57
}

/// The digit character that stands for `d`, for `d` below ten.
pub open spec fn digit_char(d: nat) -> char
    recommends
        d < 10,
{
    ((d + 48) as u8) as char
}

/// The number a digit character stands for.
pub open spec fn digit_value(c: char) -> nat
    recommends
        is_digit(c),
{
    (c as int - 48) as nat
}

/// The canonical decimal numeral of `n`: no sign, no leading zero but for
/// zero itself.
pub open spec fn nat_text(n: nat) -> Seq<char>
    decreases n,
{
    if n < 10 {
        seq![digit_char(n)]
    } else {
        nat_text(n / 10).push(digit_char(n % 10))
    }
}

/// The end of the longest run of digits of `s` that starts at `pos`.
pub open spec fn digit_run(s: Seq<char>, pos: int) -> int
    decreases s.len() - pos,
{
    if 0 <= pos < s.len() && is_digit(s[pos]) {
        digit_run(s, pos + 1)
    } else {
        pos
    }
}

/// The number that the digits `s[from..to)` denote, read in base ten.
pub open spec fn run_value(s: Seq<char>, from: int, to: int) -> nat
    decreases to - from,
{
    if to <= from {
        0
    } else {
        run_value(s, from, to - 1) * 10 + digit_value(s[to - 1])
    }
}

/// Reads a canonical numeral at `pos`: the longest run of digits there,
/// which must be non-empty, without a leading zero, and denote a number
/// that does not exceed the length of `s`. Gives the number and the
/// position behind the numeral.
pub open spec fn read_nat(s: Seq<char>, pos: int) -> Option<(nat, int)> {
    let end = digit_run(s, pos);
    if end <= pos {
        None
    } else if s[pos] == '0' && end > pos + 1 {
        None
    } else if run_value(s, pos, end) > s.len() {
        None
    } else {
        Some((run_value(s, pos, end), end))
    }
}

/// A number below ten is the value of its digit, and only zero has the
/// digit `0`.
pub proof fn lemma_digit_round_trip(d: nat)
    requires
        d < 10,
    ensures
        is_digit(digit_char(d)),
        digit_value(digit_char(d)) == d,
        (d == 0) == (digit_char(d) == '0'),
{
}

/// A digit is the digit of its value.
pub proof fn lemma_digit_char_of_value(c: char)
    requires
        is_digit(c),
    ensures
        digit_value(c) < 10,
        digit_char(digit_value(c)) == c,
{
}

/// A numeral is never empty, holds digits only, and starts with a zero
/// only when it is the numeral of zero.
pub proof fn lemma_nat_text_shape(n: nat)
    ensures
        nat_text(n).len() >= 1,
        forall|i: int| 0 <= i < nat_text(n).len() ==> is_digit(#[trigger] nat_text(n)[i]),
        nat_text(n)[0] == '0' ==> n == 0,
        n == 0 ==> nat_text(n) == seq!['0'],
    decreases n,
{
    if n < 10 {
        lemma_digit_round_trip(n);
        assert(nat_text(n)[0] == digit_char(n));
    } else {
        lemma_nat_text_shape(n / 10);
        lemma_digit_round_trip(n % 10);
        let head = nat_text(n / 10);
        assert(nat_text(n) == head.push(digit_char(n % 10)));
        assert(nat_text(n)[0] == head[0]);
        assert forall|i: int| 0 <= i < nat_text(n).len() implies is_digit(
            #[trigger] nat_text(n)[i],
        ) by {
            if i < head.len() {
                assert(nat_text(n)[i] == head[i]);
            }
        }
    }
}

/// The digit run that starts inside a block of digits reaches the end of
/// the block when the block is followed by no digit.
pub proof fn lemma_digit_run_block(s: Seq<char>, pos: int, end: int)
    requires
        0 <= pos <= end <= s.len(),
        forall|i: int| pos <= i < end ==> is_digit(#[trigger] s[i]),
        end == s.len() || !is_digit(s[end]),
    ensures
        digit_run(s, pos) == end,
    decreases end - pos,
{
    if pos < end {
        lemma_digit_run_block(s, pos + 1, end);
    }
}

/// What a digit run is: a block of digits that no digit follows.
pub proof fn lemma_digit_run_shape(s: Seq<char>, pos: int)
    requires
        0 <= pos <= s.len(),
    ensures
        pos <= digit_run(s, pos) <= s.len(),
        forall|i: int| pos <= i < digit_run(s, pos) ==> is_digit(#[trigger] s[i]),
        digit_run(s, pos) == s.len() || !is_digit(s[digit_run(s, pos)]),
    decreases s.len() - pos,
{
    if pos < s.len() && is_digit(s[pos]) {
        lemma_digit_run_shape(s, pos + 1);
    }
}

/// The value of a run depends on the digits in it alone.
pub proof fn lemma_run_value_shift(s: Seq<char>, from: int, to: int, t: Seq<char>)
    requires
        0 <= from <= to <= s.len(),
        s.subrange(from, to) == t,
    ensures
        run_value(s, from, to) == run_value(t, 0, t.len() as int),
    decreases to - from,
{
    if from < to {
        let t1 = t.drop_last();
        assert(s.subrange(from, to - 1) =~= t1);
        lemma_run_value_shift(s, from, to - 1, t1);
        assert(t[t.len() - 1] == s[to - 1]);
        lemma_run_value_prefix(t, t.len() - 1);
    }
}

/// The value of a run of `s` that ends before `k` is that of the same run
/// in the first `k` characters of `s`.
pub proof fn lemma_run_value_prefix(t: Seq<char>, k: int)
    requires
        0 <= k <= t.len(),
    ensures
        run_value(t, 0, k) == run_value(t.take(k), 0, k),
    decreases k,
{
    if k > 0 {
        lemma_run_value_prefix(t, k - 1);
        lemma_run_value_prefix(t.take(k), k - 1);
        assert(t.take(k).take(k - 1) =~= t.take(k - 1));
        assert(t.take(k)[k - 1] == t[k - 1]);
    }
}

/// Reading the numeral of `n` as a run of digits gives `n` back.
pub proof fn lemma_run_value_of_nat_text(n: nat)
    ensures
        run_value(nat_text(n), 0, nat_text(n).len() as int) == n,
    decreases n,
{
    let t = nat_text(n);
    if n < 10 {
        lemma_digit_round_trip(n);
        assert(run_value(t, 0, 0) == 0);
        assert(run_value(t, 0, 1) == run_value(t, 0, 0) * 10 + digit_value(t[0]));
    } else {
        let head = nat_text(n / 10);
        lemma_run_value_of_nat_text(n / 10);
        lemma_digit_round_trip(n % 10);
        assert(t == head.push(digit_char(n % 10)));
        assert(t.take(head.len() as int) =~= head);
        lemma_run_value_prefix(t, head.len() as int);
        assert(run_value(t, 0, t.len() as int) == run_value(t, 0, t.len() - 1) * 10 + digit_value(
            t[t.len() - 1],
        ));
    }
}

/// A non-empty run of digits whose first digit is not zero denotes a
/// positive number.
pub proof fn lemma_run_value_positive(s: Seq<char>, from: int, to: int)
    requires
        0 <= from < to <= s.len(),
        forall|i: int| from <= i < to ==> is_digit(#[trigger] s[i]),
        s[from] != '0',
    ensures
        run_value(s, from, to) >= 1,
    decreases to - from,
{
    assert(is_digit(s[to - 1]));
    if to == from + 1 {
        assert(run_value(s, from, from) == 0);
    } else {
        lemma_run_value_positive(s, from, to - 1);
    }
}

/// A canonical run of digits is the numeral of the number it denotes.
pub proof fn lemma_nat_text_of_run(s: Seq<char>, from: int, to: int)
    requires
        0 <= from < to <= s.len(),
        forall|i: int| from <= i < to ==> is_digit(#[trigger] s[i]),
        s[from] == '0' ==> to == from + 1,
    ensures
        nat_text(run_value(s, from, to)) == s.subrange(from, to),
    decreases to - from,
{
    let last = s[to - 1];
    assert(is_digit(last));
    lemma_digit_char_of_value(last);
    if to == from + 1 {
        assert(run_value(s, from, from) == 0);
        assert(run_value(s, from, to) == digit_value(last));
        assert(s.subrange(from, to) =~= seq![last]);
    } else {
        assert(s[from] != '0');
        lemma_run_value_positive(s, from, to - 1);
        lemma_nat_text_of_run(s, from, to - 1);
        let v = run_value(s, from, to - 1);
        let n = run_value(s, from, to);
        assert(n == v * 10 + digit_value(last));
        assert(n / 10 == v && n % 10 == digit_value(last));
        assert(s.subrange(from, to) =~= s.subrange(from, to - 1).push(last));
    }
}

/// Reading is complete: a numeral standing at `pos`, followed by no
/// digit, of a number within the length of `s`, is read back as that
/// number.
pub proof fn lemma_read_nat_complete(s: Seq<char>, pos: int, n: nat)
    requires
        occurs_at(s, pos, nat_text(n)),
        pos + nat_text(n).len() == s.len() || !is_digit(s[pos + nat_text(n).len()]),
        n <= s.len(),
    ensures
        read_nat(s, pos) == Some((n, pos + nat_text(n).len())),
{
    let t = nat_text(n);
    let end = pos + t.len();
    lemma_nat_text_shape(n);
    assert forall|i: int| pos <= i < end implies is_digit(#[trigger] s[i]) by {
        assert(s[i] == s.subrange(pos, end)[i - pos]);
        assert(is_digit(t[i - pos]));
    }
    lemma_digit_run_block(s, pos, end);
    assert(s[pos] == s.subrange(pos, end)[0]);
    lemma_run_value_shift(s, pos, end, t);
    lemma_run_value_of_nat_text(n);
    if s[pos] == '0' {
        assert(t[0] == '0');
        assert(t.len() == 1);
    }
}

/// Reading is sound: what was read is the numeral of the number given,
/// and no digit follows it.
pub proof fn lemma_read_nat_sound(s: Seq<char>, pos: int)
    requires
        0 <= pos <= s.len(),
        read_nat(s, pos) is Some,
    ensures
        ({
            let (n, end) = read_nat(s, pos)->0;
            &&& occurs_at(s, pos, nat_text(n))
            &&& end == pos + nat_text(n).len()
            &&& n <= s.len()
            &&& (end == s.len() || !is_digit(s[end]))
        }),
{
    lemma_digit_run_shape(s, pos);
    let end = digit_run(s, pos);
    lemma_nat_text_of_run(s, pos, end);
}

/// Strict lexicographic order by code point, decided from index `i` on for
/// two sequences that agree before `i`.
pub open spec fn lex_lt_from(a: Seq<char>, b: Seq<char>, i: int) -> bool
    decreases b.len() - i,
{
    if i < 0 || i >= b.len() {
        false
    } else if i >= a.len() {
        true
    } else if a[i] != b[i] {
        (a[i] as int) < (b[i] as int)
    } else {
        lex_lt_from(a, b, i + 1)
    }
}

/// Strict lexicographic order by code point: `a` comes before `b`.
pub open spec fn lex_lt(a: Seq<char>, b: Seq<char>) -> bool {
    lex_lt_from(a, b, 0)
}

proof fn lemma_lex_irreflexive_from(a: Seq<char>, i: int)
    requires
        0 <= i,
    ensures
        !lex_lt_from(a, a, i),
    decreases a.len() - i,
{
    if i < a.len() {
        lemma_lex_irreflexive_from(a, i + 1);
    }
}

/// No sequence comes before itself.
pub proof fn lemma_lex_irreflexive(a: Seq<char>)
    ensures
        !lex_lt(a, a),
{
    lemma_lex_irreflexive_from(a, 0);
}

proof fn lemma_lex_transitive_from(a: Seq<char>, b: Seq<char>, c: Seq<char>, i: int)
    requires
        0 <= i,
        lex_lt_from(a, b, i),
        lex_lt_from(b, c, i),
    ensures
        lex_lt_from(a, c, i),
    decreases c.len() - i,
{
    if i < a.len() && i < b.len() && i < c.len() && a[i] == b[i] && b[i] == c[i] {
        lemma_lex_transitive_from(a, b, c, i + 1);
    }
}

/// The order is transitive.
pub proof fn lemma_lex_transitive(a: Seq<char>, b: Seq<char>, c: Seq<char>)
    requires
        lex_lt(a, b),
        lex_lt(b, c),
    ensures
        lex_lt(a, c),
{
    lemma_lex_transitive_from(a, b, c, 0);
}

proof fn lemma_lex_total_from(a: Seq<char>, b: Seq<char>, i: int)
    requires
        0 <= i <= a.len(),
        i <= b.len(),
        a.take(i) == b.take(i),
        !lex_lt_from(a, b, i),
        !lex_lt_from(b, a, i),
    ensures
        a == b,
    decreases a.len() - i,
{
    if i < a.len() && i < b.len() {
        assert(a[i] == b[i]);
        assert(a.take(i + 1) =~= a.take(i).push(a[i]));
        assert(b.take(i + 1) =~= b.take(i).push(b[i]));
        lemma_lex_total_from(a, b, i + 1);
    } else {
        assert(a.take(a.len() as int) =~= a);
        assert(b.take(b.len() as int) =~= b);
    }
}

/// The order is total: of two different sequences one comes before the
/// other.
pub proof fn lemma_lex_total(a: Seq<char>, b: Seq<char>)
    ensures
        a == b || lex_lt(a, b) || lex_lt(b, a),
{
    if !lex_lt(a, b) && !lex_lt(b, a) {
        assert(a.take(0) =~= b.take(0));
        lemma_lex_total_from(a, b, 0);
    }
}

/// The code point of a character.
pub(crate) fn code_point(c: char) -> (x: u32)
    ensures
        x == c as int,
{
    c as u32
}

/// Whether a character is a decimal digit.
pub(crate) fn char_is_digit(c: char) -> (r: bool)
    ensures
        r == is_digit(c),
{
    let x: u32 = code_point(c);
    48 <= x && x <= 57
}

/// Whether `a` comes strictly before `b` in lexicographic order.
pub(crate) fn chars_lt(a: &Vec<char>, b: &Vec<char>) -> (r: bool)
    ensures
        r == lex_lt(a@, b@),
{
    let mut i: usize = 0;
    while i < a.len() && i < b.len()
        invariant
            i <= a.len(),
            i <= b.len(),
            lex_lt(a@, b@) == lex_lt_from(a@, b@, i as int),
        decreases a.len() - i,
    {
        let x: u32 = code_point(a[i]);
        let y: u32 = code_point(b[i]);
        if x != y {
            return x < y;
        }
        i = i + 1;
    }
    i < b.len()
}

/// The characters of a string, in order.
pub(crate) fn chars_of(s: &str) -> (v: Vec<char>)
    ensures
        v@ == s@,
{
    let mut v: Vec<char> = Vec::new();
    for c in it: s.chars()
        invariant
            it.seq() == s@,
            v@ == s@.take(it.index() as int),
    {
        v.push(c);
        assert(s@.take(it.index() + 1) =~= s@.take(it.index() as int).push(c));
    }
    assert(s@.take(s@.len() as int) =~= s@);
    v
}

/// The string made of the characters `cs[from..to)`.
pub(crate) fn string_of(cs: &Vec<char>, from: usize, to: usize) -> (s: String)
    requires
        from <= to <= cs.len(),
    ensures
        s@ == cs@.subrange(from as int, to as int),
{
    let mut s = String::new();
    let mut i: usize = from;
    while i < to
        invariant
            from <= i <= to <= cs.len(),
            s@ == cs@.subrange(from as int, i as int),
        decreases to - i,
    {
        s.push(cs[i]);
        assert(cs@.subrange(from as int, i + 1) =~= cs@.subrange(from as int, i as int).push(
            cs@[i as int],
        ));
        i = i + 1;
    }
    s
}

/// Appends the canonical numeral of `n` to `out`.
pub(crate) fn push_nat(out: &mut String, n: usize)
    ensures
        final(out)@ == old(out)@ + nat_text(n as nat),
    decreases n,
{
    if n >= 10 {
        push_nat(out, n / 10);
    }
    let d: u8 = (n % 10) as u8;
    let c: char = (d + 48) as char;
    out.push(c);
    proof {
        assert(c == digit_char((n % 10) as nat));
        if n >= 10 {
            assert(old(out)@ + nat_text(n as nat) =~= (old(out)@ + nat_text((n / 10) as nat)).push(
                c,
            ));
        } else {
            assert(old(out)@ + nat_text(n as nat) =~= old(out)@.push(c));
        }
    }
}

/// Reads the canonical numeral that starts at `pos`, if one stands there
/// and the number it denotes does not exceed the length of `cs`.
pub(crate) fn parse_nat(cs: &Vec<char>, pos: usize) -> (r: Option<(usize, usize)>)
    requires
        pos <= cs.len(),
    ensures
        match r {
            Some((n, end)) => read_nat(cs@, pos as int) == Some((n as nat, end as int)),
            None => read_nat(cs@, pos as int) is None,
        },
{
    let len: usize = cs.len();
    let mut end: usize = pos;
    let mut value: usize = 0;
    proof {
        lemma_digit_run_shape(cs@, pos as int);
    }
    while end < len && char_is_digit(cs[end])
        invariant
            len == cs.len(),
            pos <= end <= len,
            forall|i: int| pos <= i < end ==> is_digit(#[trigger] cs@[i]),
            value == run_value(cs@, pos as int, end as int),
            value <= len,
        ensures
            pos <= end <= len,
            value <= len,
            value == run_value(cs@, pos as int, end as int),
            forall|i: int| pos <= i < end ==> is_digit(#[trigger] cs@[i]),
            end == len || !is_digit(cs@[end as int]),
        decreases len - end,
    {
        let d: usize = (code_point(cs[end]) - 48) as usize;
        if value > len / 10 || d > len - value * 10 {
            proof {
                let stop = digit_run(cs@, pos as int);
                lemma_digit_run_shape(cs@, pos as int);
                lemma_digit_run_reaches(cs@, pos as int, end + 1);
                lemma_run_value_grows(cs@, pos as int, end + 1, stop);
                assert(run_value(cs@, pos as int, end + 1) == value * 10 + d);
            }
            return None;
        }
        value = value * 10 + d;
        end = end + 1;
    }
    proof {
        lemma_digit_run_block(cs@, pos as int, end as int);
    }
    if end == pos {
        return None;
    }
    if cs[pos] == '0' && end > pos + 1 {
        return None;
    }
    Some((value, end))
}

/// A block of digits that starts at `pos` lies within the digit run from
/// `pos`.
pub proof fn lemma_digit_run_reaches(s: Seq<char>, pos: int, end: int)
    requires
        0 <= pos <= end <= s.len(),
        forall|i: int| pos <= i < end ==> is_digit(#[trigger] s[i]),
    ensures
        end <= digit_run(s, pos),
    decreases end - pos,
{
    if pos < end {
        assert(is_digit(s[pos]));
        lemma_digit_run_reaches(s, pos + 1, end);
    } else {
        lemma_digit_run_shape(s, pos);
    }
}

/// Reading more digits never gives a smaller number.
pub proof fn lemma_run_value_grows(s: Seq<char>, from: int, mid: int, to: int)
    requires
        from <= mid <= to,
    ensures
        run_value(s, from, mid) <= run_value(s, from, to),
    decreases to - mid,
{
    if mid < to {
        lemma_run_value_grows(s, from, mid, to - 1);
    }
}

} // verus!
