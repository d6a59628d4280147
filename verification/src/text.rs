//! Character-level helpers on strings, each with a contract over `Seq<char>`.

use vstd::prelude::*;
use vstd::string::*;

verus! {

/// `parts` glued together with `sep` between consecutive parts.
pub open spec fn join_spec(parts: Seq<Seq<char>>, sep: Seq<char>) -> Seq<char>
    decreases parts.len(),
{
    if parts.len() == 0 {
        Seq::empty()
    } else if parts.len() == 1 {
        parts[0]
    } else {
        join_spec(parts.drop_last(), sep) + sep + parts.last()
    }
}

/// No part of `parts` contains the character `c`.
pub open spec fn parts_avoid(parts: Seq<Seq<char>>, c: char) -> bool {
    forall|i: int| 0 <= i < parts.len() ==> !(#[trigger] parts[i]).contains(c)
}

/// The characters of `s`, in order.
pub fn chars_of(s: &str) -> (r: Vec<char>)
    ensures
        r@ == s@,
{
    let n = s.unicode_len();
    let mut r: Vec<char> = Vec::new();
    let mut i: usize = 0;
    while i < n
        invariant
            i <= n,
            n == s@.len(),
            r@ == s@.take(i as int),
        decreases n - i,
    {
        let c = s.get_char(i);
        r.push(c);
        i = i + 1;
        assert(r@ =~= s@.take(i as int));
    }
    assert(r@ =~= s@);
    r
}

/// `String::push`: appends one character.
#[verifier::external_body]
pub(crate) fn push_char(s: &mut String, c: char)
    ensures
        final(s)@ == old(s)@.push(c),
{
    s.push(c);
}

/// A string holding exactly the characters of `cs`.
pub fn string_from_chars(cs: &[char]) -> (r: String)
    ensures
        r@ == cs@,
{
    let mut r = String::new();
    let mut i: usize = 0;
    while i < cs.len()
        invariant
            i <= cs@.len(),
            r@ == cs@.take(i as int),
        decreases cs@.len() - i,
    {
        push_char(&mut r, cs[i]);
        i = i + 1;
        assert(r@ =~= cs@.take(i as int));
    }
    assert(r@ =~= cs@);
    r
}


/// Splits `s` at every `sep`, as `str::split` does: the parts, in order,
/// contain no `sep` and glued back together with `sep` give `s`.
pub fn split_on(s: &str, sep: char) -> (parts: Vec<String>)
    ensures
        parts@.len() >= 1,
        join_spec(parts@.map_values(|p: String| p@), seq![sep]) == s@,
        parts_avoid(parts@.map_values(|p: String| p@), sep),
{
    let cs = chars_of(s);
    let mut done: Vec<String> = Vec::new();
    let mut cur: Vec<char> = Vec::new();
    let mut i: usize = 0;
    while i < cs.len()
        invariant
            i <= cs@.len(),
            cs@ == s@,
            join_spec(done@.map_values(|p: String| p@).push(cur@), seq![sep]) == cs@.take(i as int),
            parts_avoid(done@.map_values(|p: String| p@).push(cur@), sep),
        decreases cs@.len() - i,
    {
        let c = cs[i];
        let ghost before = done@.map_values(|p: String| p@).push(cur@);
        if c == sep {
            let part = string_from_chars(cur.as_slice());
            done.push(part);
            cur = Vec::new();
            let ghost after = done@.map_values(|p: String| p@).push(cur@);
            assert(after.drop_last() =~= before);
            assert(join_spec(after, seq![sep]) =~= join_spec(before, seq![sep]) + seq![sep]);
            assert(cs@.take(i + 1) =~= cs@.take(i as int).push(c));
            assert forall|j: int| 0 <= j < after.len() implies !(#[trigger] after[j]).contains(sep) by {
                if j < before.len() {
                    assert(after[j] == before[j]);
                } else {
                    assert(after[j] =~= Seq::<char>::empty());
                }
            }
        } else {
            cur.push(c);
            let ghost after = done@.map_values(|p: String| p@).push(cur@);
            assert(after.drop_last() =~= before.drop_last());
            assert(cs@.take(i + 1) =~= cs@.take(i as int).push(c));
            assert(join_spec(after, seq![sep]) =~= join_spec(before, seq![sep]).push(c));
            assert forall|j: int| 0 <= j < after.len() implies !(#[trigger] after[j]).contains(sep) by {
                if j < before.len() - 1 {
                    assert(after[j] == before[j]);
                } else {
                    assert(after[j] == before[j].push(c));
                    if after[j].contains(sep) {
                        let w = choose|w: int| 0 <= w < after[j].len() && after[j][w] == sep;
                        assert(before[j][w] == sep);
                    }
                }
            }
        }
        i = i + 1;
    }
    let ghost pre = done@.map_values(|p: String| p@).push(cur@);
    let last = string_from_chars(cur.as_slice());
    done.push(last);
    assert(cs@.take(cs@.len() as int) =~= cs@);
    assert(done@.map_values(|p: String| p@) =~= pre);
    done
}

/// Glues `parts` together with `sep` between consecutive parts, as `join` does.
pub fn join_with(parts: &[String], sep: &str) -> (r: String)
    ensures
        r@ == join_spec(parts@.map_values(|p: String| p@), sep@),
{
    let mut r = String::new();
    let mut i: usize = 0;
    while i < parts.len()
        invariant
            i <= parts@.len(),
            r@ == join_spec(parts@.map_values(|p: String| p@).take(i as int), sep@),
        decreases parts@.len() - i,
    {
        let ghost before = parts@.map_values(|p: String| p@).take(i as int);
        if i > 0 {
            r.append(sep);
        }
        r.append(parts[i].as_str());
        let ghost after = parts@.map_values(|p: String| p@).take(i + 1);
        assert(after.drop_last() =~= before);
        i = i + 1;
    }
    assert(parts@.map_values(|p: String| p@).take(parts@.len() as int) =~= parts@.map_values(|p: String| p@));
    r
}

/// The parts on either side of the last `sep` are determined: if
/// `x + [sep] + y == x2 + [sep] + y2` and neither `y` nor `y2` holds `sep`,
/// then `x == x2` and `y == y2`.
proof fn lemma_last_separator(x: Seq<char>, y: Seq<char>, x2: Seq<char>, y2: Seq<char>, sep: char)
    requires
        x + seq![sep] + y == x2 + seq![sep] + y2,
        !y.contains(sep),
        !y2.contains(sep),
    ensures
        x == x2,
        y == y2,
{
    let l = x + seq![sep] + y;
    let r = x2 + seq![sep] + y2;
    assert(l.len() == r.len());
    assert(l.len() == x.len() + 1 + y.len());
    assert(r.len() == x2.len() + 1 + y2.len());
    if y.len() < y2.len() {
        let w = x.len() - x2.len() - 1;
        assert(0 <= w < y2.len());
        assert(l[x.len() as int] == sep);
        assert(r[x.len() as int] == y2[w]);
        assert(y2[w] == sep);
        assert(y2.contains(sep));
    } else if y2.len() < y.len() {
        let w = x2.len() - x.len() - 1;
        assert(0 <= w < y.len());
        assert(r[x2.len() as int] == sep);
        assert(l[x2.len() as int] == y[w]);
        assert(y[w] == sep);
        assert(y.contains(sep));
    } else {
        assert(x.len() == x2.len());
        assert forall|j: int| 0 <= j < x.len() implies x[j] == x2[j] by {
            assert(l[j] == r[j]);
            assert(l[j] == x[j]);
            assert(r[j] == x2[j]);
        }
        assert forall|j: int| 0 <= j < y.len() implies y[j] == y2[j] by {
            assert(l[x.len() + 1 + j] == r[x2.len() + 1 + j]);
            assert(l[x.len() + 1 + j] == y[j]);
            assert(r[x2.len() + 1 + j] == y2[j]);
        }
        assert(x =~= x2);
        assert(y =~= y2);
    }
}

/// A joined string that holds the separator comes from at least two parts.
proof fn lemma_join_single_avoids(parts: Seq<Seq<char>>, sep: char)
    requires
        parts.len() >= 2,
    ensures
        join_spec(parts, seq![sep]).contains(sep),
{
    let j = join_spec(parts.drop_last(), seq![sep]);
    assert(join_spec(parts, seq![sep]) == j + seq![sep] + parts.last());
    assert((j + seq![sep] + parts.last())[j.len() as int] == sep);
}

/// Splitting is the inverse of joining: two non-empty lists of parts that
/// avoid `sep` and join to the same string are the same list.
pub proof fn lemma_join_injective(a: Seq<Seq<char>>, b: Seq<Seq<char>>, sep: char)
    requires
        a.len() >= 1,
        b.len() >= 1,
        parts_avoid(a, sep),
        parts_avoid(b, sep),
        join_spec(a, seq![sep]) == join_spec(b, seq![sep]),
    ensures
        a == b,
    decreases a.len() + b.len(),
{
    if a.len() == 1 && b.len() == 1 {
        assert(a =~= b);
    } else if a.len() == 1 {
        lemma_join_single_avoids(b, sep);
        assert(!a[0].contains(sep));
    } else if b.len() == 1 {
        lemma_join_single_avoids(a, sep);
        assert(!b[0].contains(sep));
    } else {
        assert(!a.last().contains(sep));
        assert(!b.last().contains(sep));
        lemma_last_separator(
            join_spec(a.drop_last(), seq![sep]), a.last(),
            join_spec(b.drop_last(), seq![sep]), b.last(), sep);
        assert(parts_avoid(a.drop_last(), sep)) by {
            assert forall|j: int| 0 <= j < a.drop_last().len() implies !(#[trigger] a.drop_last()[j]).contains(sep) by {
                assert(a.drop_last()[j] == a[j]);
            }
        }
        assert(parts_avoid(b.drop_last(), sep)) by {
            assert forall|j: int| 0 <= j < b.drop_last().len() implies !(#[trigger] b.drop_last()[j]).contains(sep) by {
                assert(b.drop_last()[j] == b[j]);
            }
        }
        lemma_join_injective(a.drop_last(), b.drop_last(), sep);
        assert(a =~= a.drop_last().push(a.last()));
        assert(b =~= b.drop_last().push(b.last()));
    }
}

/// `s` with every match of `pat` replaced by `to`, as `str::replace` does:
/// matches are found left to right and do not overlap; an empty `pat`
/// matches before every character and at the end.
pub open spec fn replace_spec(s: Seq<char>, pat: Seq<char>, to: Seq<char>) -> Seq<char>
    decreases s.len(),
{
    if pat.len() == 0 {
        if s.len() == 0 {
            to
        } else {
            to + seq![s[0]] + replace_spec(s.drop_first(), pat, to)
        }
    } else if s.len() == 0 {
        s
    } else if pat.is_prefix_of(s) {
        to + replace_spec(s.skip(pat.len() as int), pat, to)
    } else {
        seq![s[0]] + replace_spec(s.drop_first(), pat, to)
    }
}

/// Whether `pat` occurs in `cs` at position `i`.
fn occurs_at(cs: &Vec<char>, i: usize, pat: &Vec<char>) -> (r: bool)
    requires
        i <= cs@.len(),
    ensures
        r == pat@.is_prefix_of(cs@.skip(i as int)),
{
    if pat.len() > cs.len() - i {
        return false;
    }
    let mut k: usize = 0;
    while k < pat.len()
        invariant
            k <= pat@.len(),
            i + pat@.len() <= cs@.len(),
            cs@.len() <= usize::MAX,
            forall|j: int| 0 <= j < k ==> pat@[j] == cs@[i + j],
        decreases pat@.len() - k,
    {
        if pat[k] != cs[i + k] {
            assert(cs@.skip(i as int)[k as int] == cs@[i + k]);
            return false;
        }
        k = k + 1;
    }
    assert(pat@ =~= cs@.skip(i as int).subrange(0, pat@.len() as int));
    true
}

/// Appends every character of `xs` to `out`.
fn push_all(out: &mut Vec<char>, xs: &Vec<char>)
    ensures
        final(out)@ == old(out)@ + xs@,
{
    let mut k: usize = 0;
    while k < xs.len()
        invariant
            k <= xs@.len(),
            out@ == old(out)@ + xs@.take(k as int),
        decreases xs@.len() - k,
    {
        out.push(xs[k]);
        k = k + 1;
        assert(out@ =~= old(out)@ + xs@.take(k as int));
    }
    assert(xs@.take(xs@.len() as int) =~= xs@);
}

/// Replaces every match of `pat` in `s` by `to` (see `replace_spec`).
pub fn replace_all(s: &str, pat: &str, to: &str) -> (r: String)
    ensures
        r@ == replace_spec(s@, pat@, to@),
{
    let cs = chars_of(s);
    let ps = chars_of(pat);
    let ts = chars_of(to);
    let mut out: Vec<char> = Vec::new();
    let mut i: usize = 0;
    assert(cs@.skip(0) =~= cs@);
    if ps.len() == 0 {
        while i < cs.len()
            invariant
                i <= cs@.len(),
                ps@.len() == 0,
                out@ + replace_spec(cs@.skip(i as int), ps@, ts@) == replace_spec(cs@, ps@, ts@),
            decreases cs@.len() - i,
        {
            let ghost rest = cs@.skip(i as int);
            assert(rest.drop_first() =~= cs@.skip(i + 1));
            push_all(&mut out, &ts);
            out.push(cs[i]);
            i = i + 1;
            assert(out@ + replace_spec(cs@.skip(i as int), ps@, ts@) =~= replace_spec(cs@, ps@, ts@));
        }
        let ghost before = out@;
        push_all(&mut out, &ts);
        assert(cs@.skip(i as int) =~= Seq::<char>::empty());
        assert(replace_spec(cs@.skip(i as int), ps@, ts@) == ts@);
        assert(out@ =~= before + replace_spec(cs@.skip(i as int), ps@, ts@));
    } else {
        while i < cs.len()
            invariant
                i <= cs@.len(),
                ps@.len() > 0,
                out@ + replace_spec(cs@.skip(i as int), ps@, ts@) == replace_spec(cs@, ps@, ts@),
            decreases cs@.len() - i,
        {
            let ghost rest = cs@.skip(i as int);
            if occurs_at(&cs, i, &ps) {
                assert(rest.skip(ps@.len() as int) =~= cs@.skip(i + ps@.len()));
                push_all(&mut out, &ts);
                i = i + ps.len();
            } else {
                assert(rest.drop_first() =~= cs@.skip(i + 1));
                out.push(cs[i]);
                i = i + 1;
            }
            assert(out@ + replace_spec(cs@.skip(i as int), ps@, ts@) =~= replace_spec(cs@, ps@, ts@));
        }
        assert(cs@.skip(i as int) =~= Seq::<char>::empty());
        assert(out@ =~= out@ + replace_spec(cs@.skip(i as int), ps@, ts@));
    }
    string_from_chars(out.as_slice())
}

/// Whether `s` holds the character `c`.
pub fn has_char(s: &str, c: char) -> (r: bool)
    ensures
        r == s@.contains(c),
{
    let cs = chars_of(s);
    let mut i: usize = 0;
    while i < cs.len()
        invariant
            i <= cs@.len(),
            cs@ == s@,
            forall|j: int| 0 <= j < i ==> cs@[j] != c,
        decreases cs@.len() - i,
    {
        if cs[i] == c {
            assert(s@[i as int] == c);
            return true;
        }
        i = i + 1;
    }
    false
}

/// The characters of `cs` from position `a` up to, not including, `b`.
pub fn string_of_range(cs: &Vec<char>, a: usize, b: usize) -> (r: String)
    requires
        a <= b <= cs@.len(),
    ensures
        r@ == cs@.subrange(a as int, b as int),
{
    let mut r = String::new();
    let mut i: usize = a;
    while i < b
        invariant
            a <= i <= b,
            b <= cs@.len(),
            r@ == cs@.subrange(a as int, i as int),
        decreases b - i,
    {
        push_char(&mut r, cs[i]);
        i = i + 1;
        assert(r@ =~= cs@.subrange(a as int, i as int));
    }
    r
}

/// The character of the decimal digit `d`.
pub open spec fn digit(d: nat) -> char {
    if d == 0 { '0' }
    else if d == 1 { '1' }
    else if d == 2 { '2' }
    else if d == 3 { '3' }
    else if d == 4 { '4' }
    else if d == 5 { '5' }
    else if d == 6 { '6' }
    else if d == 7 { '7' }
    else if d == 8 { '8' }
    else { '9' }
}

/// `n` in decimal, without leading zeros.
pub open spec fn decimal(n: nat) -> Seq<char>
    decreases n,
{
    if n < 10 {
        seq![digit(n)]
    } else {
        decimal(n / 10).push(digit(n % 10))
    }
}

/// The character of the decimal digit `d`.
fn digit_char(d: u64) -> (c: char)
    requires
        d < 10,
    ensures
        c == digit(d as nat),
{
    match d {
        0 => '0',
        1 => '1',
        2 => '2',
        3 => '3',
        4 => '4',
        5 => '5',
        6 => '6',
        7 => '7',
        8 => '8',
        _ => '9',
    }
}

/// Appends `n` in decimal to `s`.
pub fn push_decimal(s: &mut String, n: u64)
    ensures
        final(s)@ == old(s)@ + decimal(n as nat),
    decreases n,
{
    if n >= 10 {
        push_decimal(s, n / 10);
    }
    push_char(s, digit_char(n % 10));
    proof {
        if n >= 10 {
            assert(final(s)@ =~= old(s)@ + decimal(n as nat));
        } else {
            assert(final(s)@ =~= old(s)@ + decimal(n as nat));
        }
    }
}


/// `n` in decimal, with a leading `-` when negative.
pub open spec fn signed_decimal(n: int) -> Seq<char> {
    if n < 0 {
        seq!['-'] + decimal((-n) as nat)
    } else {
        decimal(n as nat)
    }
}

/// Appends `n` in decimal, with a leading `-` when negative.
pub fn push_signed_decimal(s: &mut String, n: i32)
    ensures
        final(s)@ == old(s)@ + signed_decimal(n as int),
{
    if n < 0 {
        push_char(s, '-');
        let m: i64 = -(n as i64);
        push_decimal(s, m as u64);
        assert(final(s)@ =~= old(s)@ + signed_decimal(n as int));
    } else {
        push_decimal(s, n as u64);
    }
}

} // verus!
