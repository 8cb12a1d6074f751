//! Numbers, fields and lines: the pieces of the text formats in which bags and
//! edge weights are written.

use vstd::prelude::*;

verus! {

/// The decimal digits of `n`, as ASCII.
pub open spec fn decimal(n: nat) -> Seq<u8>
    decreases n,
{
    if n < 10 {
        seq![(48 + n) as u8]
    } else {
        decimal(n / 10).push((48 + n % 10) as u8)
    }
}

/// Every byte of `s` is an ASCII digit.
pub open spec fn all_digits(s: Seq<u8>) -> bool {
    forall|i: int| 0 <= i < s.len() ==> 48 <= #[trigger] s[i] <= 57
}

/// The number that the digits `s` stand for.
pub open spec fn digits_value(s: Seq<u8>) -> nat
    decreases s.len(),
{
    if s.len() == 0 {
        0
    } else {
        digits_value(s.drop_last()) * 10 + (s.last() - 48) as nat
    }
}

/// The digits of a number: what follows a `+` at the beginning, if there is
/// one, else all of it.
pub open spec fn unsigned(s: Seq<u8>) -> Seq<u8> {
    if s.len() > 0 && s[0] == 43 {
        s.drop_first()
    } else {
        s
    }
}

/// The number that `s` stands for: `s` is one digit or more, with or without
/// a `+` before them, and the number is a `u64`.
pub open spec fn number_of(s: Seq<u8>) -> Option<u64> {
    let d = unsigned(s);
    if d.len() > 0 && all_digits(d) && digits_value(d) <= u64::MAX {
        Some(digits_value(d) as u64)
    } else {
        None
    }
}

/// Digits that are followed by more digits stand for a number that is no
/// smaller.
pub proof fn lemma_digits_grow(s: Seq<u8>, i: int)
    requires
        all_digits(s),
        0 <= i <= s.len(),
    ensures
        digits_value(s.take(i)) <= digits_value(s),
    decreases s.len() - i,
{
    if i < s.len() {
        lemma_digits_grow(s, i + 1);
        assert(s.take(i + 1).drop_last() =~= s.take(i));
        assert(s.take(i + 1).last() == s[i]);
    } else {
        assert(s.take(i) =~= s);
    }
}

/// The decimal digits of a number are digits, and stand for the number.
pub proof fn lemma_decimal_is_read_back(n: nat)
    ensures
        decimal(n).len() > 0,
        all_digits(decimal(n)),
        digits_value(decimal(n)) == n,
        unsigned(decimal(n)) == decimal(n),
    decreases n,
{
    if n < 10 {
        let d = decimal(n);
        assert(d.drop_last() =~= Seq::<u8>::empty());
        assert(digits_value(d.drop_last()) == 0);
    } else {
        lemma_decimal_is_read_back(n / 10);
        let d = decimal(n);
        assert(d.drop_last() =~= decimal(n / 10));
        assert(d[0] == decimal(n / 10)[0]);
    }
}

/// What is written for a number is read as that number.
pub proof fn lemma_number_round_trip(n: u64)
    ensures
        number_of(decimal(n as nat)) == Some(n),
{
    lemma_decimal_is_read_back(n as nat);
}

/// Writes the decimal digits of `n` at the end of `out`.
pub fn push_decimal(out: &mut Vec<u8>, n: u64)
    ensures
        final(out)@ == old(out)@ + decimal(n as nat),
{
    let mut digits: Vec<u8> = Vec::new();
    let mut rest: u64 = n;
    // the digits come out last first
    while rest >= 10
        invariant
            decimal(n as nat) == decimal(rest as nat) + digits@.reverse(),
        decreases rest,
    {
        let digit: u8 = 48 + (rest % 10) as u8;
        let ghost before = digits@;
        digits.push(digit);
        proof {
            assert(digits@.reverse() =~= seq![digit] + before.reverse());
            assert(decimal(rest as nat) == decimal((rest / 10) as nat).push(digit));
            assert(decimal((rest / 10) as nat).push(digit) + before.reverse() =~= decimal(
                (rest / 10) as nat,
            ) + (seq![digit] + before.reverse()));
        }
        rest = rest / 10;
    }
    let first: u8 = 48 + rest as u8;
    out.push(first);
    let ghost head = old(out)@.push(first);
    assert(decimal(rest as nat) =~= seq![first]);
    let mut i: usize = digits.len();
    while i > 0
        invariant
            i <= digits.len(),
            out@ == head + digits@.reverse().take(digits.len() - i),
        decreases i,
    {
        i -= 1;
        out.push(digits[i]);
        proof {
            let r = digits@.reverse();
            let done = digits.len() - i;
            assert(r.take(done) =~= r.take(done - 1).push(r[done - 1]));
            assert(r[done - 1] == digits@[i as int]);
            assert(head + r.take(done) =~= (head + r.take(done - 1)).push(r[done - 1]));
        }
    }
    proof {
        let r = digits@.reverse();
        assert(r.take(digits.len() as int) =~= r);
        assert(head + r =~= old(out)@ + (seq![first] + r));
    }
}

/// Reads a number: digits, with or without a `+` before them. `None` where
/// `s` is something else, or the number is too large for a `u64`.
pub fn parse_number(s: &[u8]) -> (r: Option<u64>)
    ensures
        r == number_of(s@),
{
    let start: usize = if s.len() > 0 && s[0] == 43 {
        1
    } else {
        0
    };
    let ghost d = unsigned(s@);
    assert(d =~= s@.skip(start as int));
    if start >= s.len() {
        return None;
    }
    let mut value: u64 = 0;
    let mut i: usize = start;
    assert(d.take(0) =~= Seq::<u8>::empty());
    while i < s.len()
        invariant
            start <= i <= s.len(),
            d == s@.skip(start as int),
            d == unsigned(s@),
            d.len() > 0,
            all_digits(d.take(i - start)),
            value == digits_value(d.take(i - start)),
        decreases s.len() - i,
    {
        let c = s[i];
        let ghost next = d.take(i - start + 1);
        proof {
            assert(next.drop_last() =~= d.take(i - start));
            assert(next.last() == c);
        }
        if c < 48 || c > 57 {
            assert(d[i - start] == c);
            return None;
        }
        let digit: u64 = (c - 48) as u64;
        if value > (u64::MAX - digit) / 10 {
            proof {
                assert(digits_value(next) == value * 10 + digit);
                assert(digits_value(next) > u64::MAX) by (nonlinear_arith)
                    requires
                        value > (u64::MAX - digit) / 10,
                        digits_value(next) == value * 10 + digit,
                        0 <= digit <= 9,
                ;
                if all_digits(d) {
                    lemma_digits_grow(d, i - start + 1);
                }
            }
            return None;
        }
        assert(value * 10 + digit <= u64::MAX) by (nonlinear_arith)
            requires
                value <= (u64::MAX - digit) / 10,
                0 <= digit <= 9,
        ;
        value = value * 10 + digit;
        proof {
            assert forall|j: int| 0 <= j < next.len() implies 48 <= #[trigger] next[j] <= 57 by {
                if j < next.len() - 1 {
                    assert(next[j] == d.take(i - start)[j]);
                }
            }
        }
        i += 1;
    }
    assert(d.take(d.len() as int) =~= d);
    Some(value)
}

/// The fields of `s`: the stretches between the separators. There is one
/// field more than there are separators; a text without a separator is one
/// field.
pub open spec fn fields(s: Seq<u8>, sep: u8) -> Seq<Seq<u8>>
    decreases s.len(),
{
    if s.len() == 0 {
        seq![Seq::<u8>::empty()]
    } else {
        let front = fields(s.drop_last(), sep);
        if s.last() == sep {
            front.push(Seq::<u8>::empty())
        } else {
            front.drop_last().push(front.last().push(s.last()))
        }
    }
}

/// There is a field at least.
pub proof fn lemma_fields_not_empty(s: Seq<u8>, sep: u8)
    ensures
        fields(s, sep).len() > 0,
    decreases s.len(),
{
    if s.len() > 0 {
        lemma_fields_not_empty(s.drop_last(), sep);
    }
}

/// The views of the byte vectors in `v`.
pub open spec fn byte_views(v: Seq<Vec<u8>>) -> Seq<Seq<u8>> {
    Seq::new(v.len(), |i: int| v[i]@)
}

/// Splits `s` at every `sep`.
pub fn split(s: &[u8], sep: u8) -> (r: Vec<Vec<u8>>)
    ensures
        byte_views(r@) == fields(s@, sep),
        r@.len() > 0,
{
    let mut done: Vec<Vec<u8>> = Vec::new();
    let mut current: Vec<u8> = Vec::new();
    let mut i: usize = 0;
    assert(s@.take(0) =~= Seq::<u8>::empty());
    assert(byte_views(done@).push(current@) =~= seq![Seq::<u8>::empty()]);
    while i < s.len()
        invariant
            i <= s.len(),
            byte_views(done@).push(current@) == fields(s@.take(i as int), sep),
        decreases s.len() - i,
    {
        let c = s[i];
        let ghost before = byte_views(done@);
        let ghost partial = current@;
        proof {
            let next = s@.take(i + 1);
            assert(next.drop_last() =~= s@.take(i as int));
            assert(next.last() == c);
            assert(before.push(partial).drop_last() =~= before);
        }
        if c == sep {
            done.push(current);
            current = Vec::new();
            assert(byte_views(done@).push(current@) =~= before.push(partial).push(
                Seq::<u8>::empty(),
            ));
        } else {
            current.push(c);
            assert(byte_views(done@).push(current@) =~= before.push(partial.push(c)));
        }
        i += 1;
    }
    assert(s@.take(s@.len() as int) =~= s@);
    let ghost before = byte_views(done@);
    let ghost partial = current@;
    done.push(current);
    assert(byte_views(done@) =~= before.push(partial));
    done
}

/// The numbers that the fields `parts` stand for, or `None` where one of
/// them is no number.
pub open spec fn numbers_of(parts: Seq<Seq<u8>>) -> Option<Seq<u64>>
    decreases parts.len(),
{
    if parts.len() == 0 {
        Some(Seq::<u64>::empty())
    } else {
        match (numbers_of(parts.drop_last()), number_of(parts.last())) {
            (Some(front), Some(n)) => Some(front.push(n)),
            _ => None,
        }
    }
}

/// Reads every field as a number.
pub fn parse_numbers(parts: &Vec<Vec<u8>>) -> (r: Option<Vec<u64>>)
    ensures
        match r {
            Some(v) => numbers_of(byte_views(parts@)) == Some(v@),
            None => numbers_of(byte_views(parts@)) is None,
        },
{
    let ghost all = byte_views(parts@);
    let mut out: Vec<u64> = Vec::new();
    let mut i: usize = 0;
    assert(all.take(0) =~= Seq::<Seq<u8>>::empty());
    while i < parts.len()
        invariant
            i <= parts.len(),
            all == byte_views(parts@),
            numbers_of(all.take(i as int)) == Some(out@),
        decreases parts.len() - i,
    {
        proof {
            let next = all.take(i + 1);
            assert(next.drop_last() =~= all.take(i as int));
            assert(next.last() == parts@[i as int]@);
        }
        match parse_number(parts[i].as_slice()) {
            Some(n) => {
                out.push(n);
            },
            None => {
                proof {
                    lemma_numbers_fail(all, i + 1);
                }
                return None;
            },
        }
        i += 1;
    }
    assert(all.take(all.len() as int) =~= all);
    Some(out)
}

/// Where the first fields hold something that is no number, all of them do.
pub proof fn lemma_numbers_fail(parts: Seq<Seq<u8>>, i: int)
    requires
        0 <= i <= parts.len(),
        numbers_of(parts.take(i)) is None,
    ensures
        numbers_of(parts) is None,
    decreases parts.len() - i,
{
    if i < parts.len() {
        assert(parts.take(i + 1).drop_last() =~= parts.take(i));
        lemma_numbers_fail(parts, i + 1);
    } else {
        assert(parts.take(i) =~= parts);
    }
}

/// The numbers `v`, written with `sep` between them.
pub open spec fn joined(v: Seq<u64>, sep: u8) -> Seq<u8>
    decreases v.len(),
{
    if v.len() == 0 {
        Seq::<u8>::empty()
    } else if v.len() == 1 {
        decimal(v[0] as nat)
    } else {
        joined(v.drop_last(), sep).push(sep) + decimal(v.last() as nat)
    }
}

/// Writes the numbers `v` at the end of `out`, with `sep` between them.
pub fn push_joined(out: &mut Vec<u8>, v: &Vec<u64>, sep: u8)
    ensures
        final(out)@ == old(out)@ + joined(v@, sep),
{
    let mut i: usize = 0;
    assert(v@.take(0) =~= Seq::<u64>::empty());
    assert(out@ =~= old(out)@ + joined(v@.take(0), sep));
    while i < v.len()
        invariant
            i <= v.len(),
            out@ == old(out)@ + joined(v@.take(i as int), sep),
        decreases v.len() - i,
    {
        let ghost before = out@;
        let ghost next = v@.take(i + 1);
        proof {
            assert(next.drop_last() =~= v@.take(i as int));
            assert(next.last() == v@[i as int]);
        }
        if i > 0 {
            out.push(sep);
        }
        push_decimal(out, v[i]);
        proof {
            if i > 0 {
                assert(out@ =~= old(out)@ + (joined(v@.take(i as int), sep).push(sep) + decimal(
                    v@[i as int] as nat,
                )));
            } else {
                assert(next[0] == v@[0]);
                assert(joined(v@.take(0), sep) =~= Seq::<u8>::empty());
                assert(out@ =~= old(out)@ + decimal(v@[0] as nat));
            }
        }
        i += 1;
    }
    assert(v@.take(v@.len() as int) =~= v@);
}

/// A piece without the carriage return at its end, if it has one.
pub open spec fn without_return(s: Seq<u8>) -> Seq<u8> {
    if s.len() > 0 && s.last() == 13 {
        s.drop_last()
    } else {
        s
    }
}

/// The lines of `text`. A line ends with a line feed, or with a carriage
/// return and a line feed; the last line may end with the text.
pub open spec fn lines_of(text: Seq<u8>) -> Seq<Seq<u8>> {
    let pieces = fields(text, 10);
    let ended = pieces.drop_last().map_values(|p: Seq<u8>| without_return(p));
    if pieces.last().len() == 0 {
        ended
    } else {
        ended.push(pieces.last())
    }
}

/// Splits `text` into its lines.
pub fn lines(text: &[u8]) -> (r: Vec<Vec<u8>>)
    ensures
        byte_views(r@) == lines_of(text@),
{
    let mut pieces = split(text, 10);
    let ghost all = byte_views(pieces@);
    let last = pieces.pop().unwrap();
    assert(byte_views(pieces@) =~= all.drop_last());
    let mut out: Vec<Vec<u8>> = Vec::new();
    let mut i: usize = 0;
    let ghost ended = all.drop_last().map_values(|p: Seq<u8>| without_return(p));
    while i < pieces.len()
        invariant
            i <= pieces.len(),
            byte_views(pieces@) == all.drop_last(),
            ended == all.drop_last().map_values(|p: Seq<u8>| without_return(p)),
            byte_views(out@) == ended.take(i as int),
        decreases pieces.len() - i,
    {
        let piece = &pieces[i];
        let n = piece.len();
        let mut line: Vec<u8> = Vec::new();
        let keep: usize = if n > 0 && piece[n - 1] == 13 {
            n - 1
        } else {
            n
        };
        let mut j: usize = 0;
        while j < keep
            invariant
                j <= keep,
                keep <= piece.len(),
                line@ == piece@.take(j as int),
            decreases keep - j,
        {
            line.push(piece[j]);
            assert(piece@.take(j + 1) =~= piece@.take(j as int).push(piece@[j as int]));
            j += 1;
        }
        proof {
            assert(piece@ == all.drop_last()[i as int]);
            assert(line@ =~= without_return(piece@));
        }
        let ghost before = byte_views(out@);
        out.push(line);
        assert(byte_views(out@) =~= before.push(without_return(all.drop_last()[i as int])));
        assert(ended.take(i + 1) =~= ended.take(i as int).push(ended[i as int]));
        i += 1;
    }
    assert(ended.take(ended.len() as int) =~= ended);
    if last.len() > 0 {
        let ghost before = byte_views(out@);
        out.push(last);
        assert(byte_views(out@) =~= before.push(all.last()));
    }
    out
}

} // verus!
