//! The text encoding of a track's work-part indices: decimal numbers joined by commas.

use vstd::prelude::*;

verus! {

/// Whether `c` is an ASCII decimal digit.
pub open spec fn is_digit(c: char) -> bool {
    '0' <= c && c <= '9'
}

/// The value of an ASCII decimal digit.
pub open spec fn digit_value(c: char) -> nat {
    (c as u32 - '0' as u32) as nat
}

/// The ASCII character of the digit `d` (for `d < 10`).
pub open spec fn digit_char(d: nat) -> char {
    ((d + 48) as u8) as char
}

/// The decimal representation of `n`, without leading zeros.
pub open spec fn decimal(n: nat) -> Seq<char>
    decreases n,
{
    if n < 10 {
        seq![digit_char(n)]
    } else {
        decimal(n / 10).push(digit_char(n % 10))
    }
}

/// The number that a sequence of digits denotes (leading zeros allowed).
pub open spec fn digits_value(s: Seq<char>) -> nat
    decreases s.len(),
{
    if s.len() == 0 {
        0
    } else {
        digits_value(s.drop_last()) * 10 + digit_value(s.last())
    }
}

/// Whether every character of `s` is a digit.
pub open spec fn all_digits(s: Seq<char>) -> bool {
    forall|i: int| 0 <= i < s.len() ==> is_digit(#[trigger] s[i])
}

/// Whether `s` is one well-formed index: at least one digit, nothing else, and a value
/// that fits in `usize`.
pub open spec fn is_index(s: Seq<char>) -> bool {
    s.len() > 0 && all_digits(s) && digits_value(s) <= usize::MAX
}

/// The text of a list of indices: each in decimal, joined by single commas.
pub open spec fn encode(parts: Seq<usize>) -> Seq<char>
    decreases parts.len(),
{
    if parts.len() == 0 {
        seq![]
    } else if parts.len() == 1 {
        decimal(parts[0] as nat)
    } else {
        encode(parts.drop_last()) + seq![','] + decimal(parts.last() as nat)
    }
}

/// The pieces of `s` between commas, in order; there is always at least one.
pub open spec fn segments(s: Seq<char>) -> Seq<Seq<char>>
    decreases s.len(),
{
    if s.len() == 0 {
        seq![seq![]]
    } else {
        let init = segments(s.drop_last());
        if s.last() == ',' {
            init.push(seq![])
        } else {
            init.update(init.len() - 1, init.last().push(s.last()))
        }
    }
}

/// Whether every segment of `s` is a well-formed index.
pub open spec fn decodable(s: Seq<char>) -> bool {
    forall|i: int| 0 <= i < segments(s).len() ==> is_index(#[trigger] segments(s)[i])
}

/// The indices that `s` holds, or `None` where some segment is empty, holds a character
/// that is not a digit, or is too large.
pub open spec fn decode(s: Seq<char>) -> Option<Seq<usize>> {
    if decodable(s) {
        Some(Seq::new(segments(s).len(), |i: int| digits_value(segments(s)[i]) as usize))
    } else {
        None
    }
}

proof fn lemma_digit_char(d: nat)
    requires
        d < 10,
    ensures
        is_digit(digit_char(d)),
        digit_value(digit_char(d)) == d,
        digit_char(d) != ',',
{
}

proof fn lemma_decimal(n: nat)
    ensures
        decimal(n).len() > 0,
        all_digits(decimal(n)),
        digits_value(decimal(n)) == n,
    decreases n,
{
    if n < 10 {
        lemma_digit_char(n);
        assert(decimal(n).drop_last() =~= seq![]);
        assert(digits_value(decimal(n).drop_last()) == 0);
    } else {
        lemma_decimal(n / 10);
        lemma_digit_char(n % 10);
        assert(decimal(n).drop_last() =~= decimal(n / 10));
        assert(decimal(n).last() == digit_char(n % 10));
        assert((n / 10) * 10 + n % 10 == n);
    }
}

proof fn lemma_segments_nonempty(s: Seq<char>)
    ensures
        segments(s).len() >= 1,
    decreases s.len(),
{
    if s.len() > 0 {
        lemma_segments_nonempty(s.drop_last());
    }
}

/// Appending text without commas extends the last segment.
proof fn lemma_segments_extend(s: Seq<char>, t: Seq<char>)
    requires
        forall|i: int| 0 <= i < t.len() ==> t[i] != ',',
    ensures
        segments(s + t) == segments(s).update(
            segments(s).len() - 1,
            segments(s).last() + t,
        ),
    decreases t.len(),
{
    lemma_segments_nonempty(s);
    if t.len() == 0 {
        assert(s + t =~= s);
        assert(segments(s).last() + t =~= segments(s).last());
        assert(segments(s).update(segments(s).len() - 1, segments(s).last()) =~= segments(s));
    } else {
        let t0 = t.drop_last();
        lemma_segments_extend(s, t0);
        assert((s + t).drop_last() =~= s + t0);
        assert((s + t).last() == t.last());
        assert(segments(s).last() + t0 + seq![t.last()] =~= segments(s).last() + t);
        assert((segments(s).last() + t0).push(t.last()) =~= segments(s).last() + t);
        assert(segments(s + t) =~= segments(s).update(
            segments(s).len() - 1,
            segments(s).last() + t,
        ));
    }
}

proof fn lemma_segments_encode(parts: Seq<usize>)
    requires
        parts.len() > 0,
    ensures
        segments(encode(parts)) == Seq::new(parts.len(), |i: int| decimal(parts[i] as nat)),
    decreases parts.len(),
{
    let n = parts.last() as nat;
    lemma_decimal(n);
    assert forall|i: int| 0 <= i < decimal(n).len() implies decimal(n)[i] != ',' by {
        assert(is_digit(decimal(n)[i]));
    }
    if parts.len() == 1 {
        lemma_segments_extend(seq![], decimal(n));
        assert(seq![] + decimal(n) =~= decimal(n));
        assert(seq![] + decimal(n) =~= decimal(n));
        assert(segments(encode(parts)) =~= Seq::new(
            parts.len(),
            |i: int| decimal(parts[i] as nat),
        ));
    } else {
        let init = parts.drop_last();
        lemma_segments_encode(init);
        let pre = encode(init) + seq![','];
        assert(pre.drop_last() =~= encode(init));
        lemma_segments_nonempty(pre);
        lemma_segments_extend(pre, decimal(n));
        assert(seq![] + decimal(n) =~= decimal(n));
        assert(segments(encode(parts)) =~= Seq::new(
            parts.len(),
            |i: int| decimal(parts[i] as nat),
        ));
    }
}

/// Decoding the encoding of a non-empty list of indices gives the list back.
pub proof fn lemma_decode_encode(parts: Seq<usize>)
    requires
        parts.len() > 0,
    ensures
        decode(encode(parts)) == Some(parts),
{
    lemma_segments_encode(parts);
    let segs = segments(encode(parts));
    assert forall|i: int| 0 <= i < segs.len() implies is_index(#[trigger] segs[i]) by {
        lemma_decimal(parts[i] as nat);
    }
    assert forall|i: int| 0 <= i < segs.len() implies digits_value(#[trigger] segs[i])
        == parts[i] by {
        lemma_decimal(parts[i] as nat);
    }
    assert(Seq::new(segs.len(), |i: int| digits_value(segs[i]) as usize) =~= parts);
}

/// The empty list encodes to the empty text, which does not decode.
pub proof fn lemma_empty_does_not_decode()
    ensures
        encode(seq![]) == Seq::<char>::empty(),
        decode(Seq::<char>::empty()) is None,
{
    assert(segments(Seq::<char>::empty())[0].len() == 0);
}

/// Relies on `String::push`: the character is appended at the end.
#[verifier::external_body]
fn push_char(s: &mut String, c: char)
    ensures
        final(s)@ == old(s)@.push(c),
{
    s.push(c)
}

fn push_decimal(n: usize, out: &mut String)
    ensures
        final(out)@ == old(out)@ + decimal(n as nat),
    decreases n,
{
    let d: usize = n % 10;
    if n >= 10 {
        push_decimal(n / 10, out);
    }
    let c = ((d as u8) + 48u8) as char;
    push_char(out, c);
    proof {
        if n >= 10 {
            assert(decimal(n as nat) =~= decimal((n / 10) as nat).push(digit_char(d as nat)));
        } else {
            assert(decimal(n as nat) =~= seq![digit_char(d as nat)]);
        }
        assert(final(out)@ =~= old(out)@ + decimal(n as nat));
    }
}

/// The stored text of a list of work-part indices.
pub fn encode_work_parts(parts: &Vec<usize>) -> (r: String)
    ensures
        r@ == encode(parts@),
{
    let mut out = String::new();
    let mut i: usize = 0;
    while i < parts.len()
        invariant
            i <= parts.len(),
            out@ == encode(parts@.take(i as int)),
        decreases parts.len() - i,
    {
        let ghost before = out@;
        if i > 0 {
            push_char(&mut out, ',');
        }
        push_decimal(parts[i], &mut out);
        proof {
            let t = parts@.take(i + 1);
            assert(t.drop_last() =~= parts@.take(i as int));
            assert(t.last() == parts@[i as int]);
            if i == 0 {
                assert(out@ =~= encode(t));
            } else {
                assert(out@ =~= before + seq![','] + decimal(parts@[i as int] as nat));
            }
        }
        i = i + 1;
    }
    assert(parts@.take(parts.len() as int) =~= parts@);
    out
}

proof fn lemma_digits_value_prefix(s: Seq<char>, m: int)
    requires
        0 <= m <= s.len(),
    ensures
        digits_value(s.take(m)) <= digits_value(s),
    decreases s.len(),
{
    if m < s.len() {
        lemma_digits_value_prefix(s.drop_last(), m);
        assert(s.drop_last().take(m) =~= s.take(m));
    } else {
        assert(s.take(m) =~= s);
    }
}

/// The segments of a prefix of `s`: all but the last are segments of `s` itself, and the
/// last is the start of the segment of `s` at the same position.
proof fn lemma_segments_prefix(s: Seq<char>, k: int)
    requires
        0 <= k <= s.len(),
    ensures
        ({
            let p = segments(s.take(k));
            let q = segments(s);
            &&& 1 <= p.len() <= q.len()
            &&& forall|j: int| 0 <= j < p.len() - 1 ==> q[j] == #[trigger] p[j]
            &&& p.last().len() <= q[p.len() - 1].len()
            &&& q[p.len() - 1].take(p.last().len() as int) == p.last()
        }),
    decreases s.len(),
{
    lemma_segments_nonempty(s.take(k));
    lemma_segments_nonempty(s);
    if k == s.len() {
        assert(s.take(k) =~= s);
        assert(segments(s).last().take(segments(s).last().len() as int) =~= segments(s).last());
    } else {
        let s0 = s.drop_last();
        lemma_segments_prefix(s0, k);
        assert(s0.take(k) =~= s.take(k));
        lemma_segments_nonempty(s0);
        let p = segments(s.take(k));
        let q0 = segments(s0);
        let q = segments(s);
        if s.last() != ',' {
            let l = q0.len() - 1;
            if p.len() - 1 == l {
                assert(q[l].take(p.last().len() as int) =~= q0[l].take(p.last().len() as int));
            }
        }
    }
}

/// The indices that a stored text holds, or `None` where the text is malformed.
pub fn decode_work_parts(text: &str) -> (r: Option<Vec<usize>>)
    ensures
        match r {
            Some(v) => decode(text@) == Some(v@),
            None => decode(text@) is None,
        },
{
    let n = text.unicode_len();
    let mut out: Vec<usize> = Vec::new();
    let mut cur: usize = 0;
    let mut cur_len: usize = 0;
    let mut i: usize = 0;
    while i < n
        invariant
            n == text@.len(),
            i <= n,
            cur_len <= i,
            segments(text@.take(i as int)).len() == out@.len() + 1,
            forall|j: int|
                0 <= j < out@.len() ==> is_index(#[trigger] segments(text@.take(i as int))[j])
                    && out@[j] == digits_value(segments(text@.take(i as int))[j]),
            all_digits(segments(text@.take(i as int)).last()),
            cur_len == segments(text@.take(i as int)).last().len(),
            cur == digits_value(segments(text@.take(i as int)).last()),
        decreases n - i,
    {
        let c = text.get_char(i);
        let ghost prev = segments(text@.take(i as int));
        let ghost next = segments(text@.take(i + 1));
        proof {
            assert(text@.take(i + 1).drop_last() =~= text@.take(i as int));
            assert(text@.take(i + 1).last() == c);
            lemma_segments_prefix(text@, i + 1);
        }
        if c == ',' {
            if cur_len == 0 {
                proof {
                    assert(next == prev.push(seq![]));
                    let j = prev.len() - 1;
                    assert(segments(text@)[j] == next[j]);
                    assert(!is_index(segments(text@)[j]));
                }
                return None;
            }
            proof {
                assert(next == prev.push(seq![]));
            }
            out.push(cur);
            cur = 0;
            cur_len = 0;
            proof {
                assert forall|j: int| 0 <= j < out@.len() implies is_index(#[trigger] next[j])
                    && out@[j] == digits_value(next[j]) by {
                    if j < out@.len() - 1 {
                        assert(next[j] == prev[j]);
                    } else {
                        assert(next[j] == prev.last());
                    }
                }
                assert(next.last() =~= Seq::<char>::empty());
                assert(digits_value(Seq::<char>::empty()) == 0);
            }
        } else if '0' <= c && c <= '9' {
            let d = (c as u32 - 48) as usize;
            let ghost seg = prev.last().push(c);
            proof {
                assert(next == prev.update(prev.len() - 1, seg));
                assert(seg.drop_last() =~= prev.last());
            }
            if cur > (usize::MAX - d) / 10 {
                proof {
                    assert(cur * 10 + d > usize::MAX) by (nonlinear_arith)
                        requires
                            cur > (usize::MAX - d) / 10,
                            d <= 9,
                    ;
                    let q = segments(text@)[prev.len() - 1];
                    assert(q.take(seg.len() as int) == seg);
                    if all_digits(q) {
                        lemma_digits_value_prefix(q, seg.len() as int);
                    }
                    assert(!is_index(q));
                }
                return None;
            }
            cur = cur * 10 + d;
            cur_len = cur_len + 1;
            proof {
                assert forall|j: int| 0 <= j < out@.len() implies is_index(#[trigger] next[j])
                    && out@[j] == digits_value(next[j]) by {
                    assert(next[j] == prev[j]);
                }
                assert(next.last() == seg);
                assert(all_digits(seg)) by {
                    assert forall|t: int| 0 <= t < seg.len() implies is_digit(#[trigger] seg[t]) by {
                        if t < seg.len() - 1 {
                            assert(seg[t] == prev.last()[t]);
                        }
                    }
                }
            }
        } else {
            proof {
                let seg = prev.last().push(c);
                assert(next == prev.update(prev.len() - 1, seg));
                let q = segments(text@)[prev.len() - 1];
                assert(q.take(seg.len() as int) == seg);
                assert(q[seg.len() - 1] == seg[seg.len() - 1]);
                assert(!is_digit(q[seg.len() - 1]));
                assert(!is_index(q));
            }
            return None;
        }
        i = i + 1;
    }
    proof {
        assert(text@.take(n as int) =~= text@);
    }
    if cur_len == 0 {
        proof {
            let segs = segments(text@);
            assert(!is_index(segs[segs.len() - 1]));
        }
        return None;
    }
    out.push(cur);
    proof {
        let segs = segments(text@);
        assert forall|j: int| 0 <= j < segs.len() implies is_index(#[trigger] segs[j])
            && out@[j] == digits_value(segs[j]) by {
            if j == segs.len() - 1 {
                assert(out@[j] == cur);
            }
        }
        assert(decodable(text@));
        assert(Seq::new(segs.len(), |j: int| digits_value(segs[j]) as usize) =~= out@);
    }
    Some(out)
}

/// A text holding a character that is neither a digit nor a comma does not decode.
pub proof fn lemma_stray_char_does_not_decode(s: Seq<char>, i: int)
    requires
        0 <= i < s.len(),
        !is_digit(s[i]),
        s[i] != ',',
    ensures
        decode(s) is None,
{
    let prev = segments(s.take(i));
    let p = segments(s.take(i + 1));
    assert(s.take(i + 1).drop_last() =~= s.take(i));
    assert(s.take(i + 1).last() == s[i]);
    lemma_segments_nonempty(s.take(i));
    lemma_segments_prefix(s, i + 1);
    let seg = prev.last().push(s[i]);
    assert(p == prev.update(prev.len() - 1, seg));
    let q = segments(s)[p.len() - 1];
    assert(q.take(seg.len() as int) == seg);
    assert(seg[seg.len() - 1] == s[i]);
    assert(q.take(seg.len() as int)[seg.len() - 1] == q[seg.len() - 1]);
    assert(q[seg.len() - 1] == s[i]);
    assert(!is_index(q));
}

/// A text with an empty piece between commas, or at either end, does not decode.
pub proof fn lemma_empty_piece_does_not_decode(s: Seq<char>, j: int)
    requires
        0 <= j < segments(s).len(),
        segments(s)[j].len() == 0,
    ensures
        decode(s) is None,
{
}

} // verus!
