use vstd::prelude::*;

use crate::walk::Segment;

verus! {

/// ASCII whitespace: tab, line feed, vertical tab, form feed, carriage return
/// and space.
pub open spec fn is_space(b: u8) -> bool {
    b == 9 || b == 10 || b == 11 || b == 12 || b == 13 || b == 32
}

/// The maximal runs of non-whitespace bytes of `s`, in order.
pub open spec fn tokens(s: Seq<u8>) -> Seq<Seq<u8>>
    decreases s.len(),
{
    if s.len() == 0 {
        Seq::empty()
    } else {
        let init = s.drop_last();
        let b = s.last();
        let t = tokens(init);
        if is_space(b) {
            t
        } else if init.len() > 0 && !is_space(init.last()) && t.len() > 0 {
            t.update(t.len() - 1, t.last().push(b))
        } else {
            t.push(seq![b])
        }
    }
}

pub open spec fn is_digit(b: u8) -> bool {
    48 <= b <= 57
}

pub open spec fn all_digits(d: Seq<u8>) -> bool {
    forall|i: int| 0 <= i < d.len() ==> is_digit(#[trigger] d[i])
}

/// The number that the decimal digits `d` spell.
pub open spec fn digits_value(d: Seq<u8>) -> int
    decreases d.len(),
{
    if d.len() == 0 {
        0
    } else {
        digits_value(d.drop_last()) * 10 + (d.last() - 48)
    }
}

/// The integer a token spells: an optional `+` or `-`, then at least one
/// decimal digit.
pub open spec fn token_value(t: Seq<u8>) -> Option<int> {
    if t.len() > 0 && (t[0] == 45 || t[0] == 43) {
        let d = t.drop_first();
        if d.len() > 0 && all_digits(d) {
            Some(if t[0] == 45 { -digits_value(d) } else { digits_value(d) })
        } else {
            None
        }
    } else if t.len() > 0 && all_digits(t) {
        Some(digits_value(t))
    } else {
        None
    }
}

/// The `i32` a token spells, if it spells one in range.
pub open spec fn token_i32(t: Seq<u8>) -> Option<i32> {
    match token_value(t) {
        Some(v) => if i32::MIN <= v <= i32::MAX {
            Some(v as i32)
        } else {
            None
        },
        None => None,
    }
}

/// Why a line of a coordinate list gives no thread.
#[derive(PartialEq, Eq, Structural, Debug, Clone, Copy)]
pub enum CoordError {
    /// The line holds this many fields instead of four.
    WrongCount(usize),
    /// A field is not an `i32`.
    BadNumber,
}

/// What a line of a coordinate list gives: four whitespace-separated `i32`
/// fields `x1 y1 x2 y2` make the thread from `(x1, y1)` to `(x2, y2)`.
pub open spec fn line_result(line: Seq<u8>) -> Result<Segment, CoordError> {
    let t = tokens(line);
    if t.len() != 4 {
        Err(CoordError::WrongCount(t.len() as usize))
    } else {
        match (token_i32(t[0]), token_i32(t[1]), token_i32(t[2]), token_i32(t[3])) {
            (Some(a), Some(b), Some(c), Some(d)) => Ok(((a, b), (c, d))),
            _ => Err(CoordError::BadNumber),
        }
    }
}

/// The decimal digits of `n`, most significant first, without leading zeros.
pub open spec fn digits_of(n: nat) -> Seq<u8>
    decreases n,
{
    if n < 10 {
        seq![(48 + n) as u8]
    } else {
        digits_of(n / 10).push((48 + n % 10) as u8)
    }
}

/// `v` in decimal, with a leading `-` when negative.
pub open spec fn decimal(v: int) -> Seq<u8> {
    if v < 0 {
        seq![45u8] + digits_of((-v) as nat)
    } else {
        digits_of(v as nat)
    }
}

/// One thread as a line of text: `x1 y1 x2 y2` and a line feed.
pub open spec fn segment_line(s: Segment) -> Seq<u8> {
    decimal(s.0.0 as int) + seq![32u8] + decimal(s.0.1 as int) + seq![32u8] + decimal(
        s.1.0 as int,
    ) + seq![32u8] + decimal(s.1.1 as int) + seq![10u8]
}

/// A list of threads as text, one line per thread.
pub open spec fn coordinates_text(segs: Seq<Segment>) -> Seq<u8>
    decreases segs.len(),
{
    if segs.len() == 0 {
        Seq::empty()
    } else {
        coordinates_text(segs.drop_last()) + segment_line(segs.last())
    }
}

/// The views of a list of byte vectors.
pub open spec fn views(v: Seq<Vec<u8>>) -> Seq<Seq<u8>> {
    v.map_values(|x: Vec<u8>| x@)
}

/// Splits `s` at ASCII whitespace into its non-empty fields.
pub fn split_fields(s: &[u8]) -> (r: Vec<Vec<u8>>)
    ensures
        views(r@) == tokens(s@),
{
    let n = s.len();
    let mut done: Vec<Vec<u8>> = Vec::new();
    let mut cur: Vec<u8> = Vec::new();
    let mut in_tok = false;
    let mut i: usize = 0;
    assert(s@.subrange(0, 0) =~= Seq::<u8>::empty());
    assert(views(done@) =~= Seq::<Seq<u8>>::empty());
    while i < n
        invariant
            i <= n,
            n == s@.len(),
            in_tok == (i > 0 && !is_space(s@[i - 1])),
            !in_tok ==> cur@.len() == 0,
            tokens(s@.subrange(0, i as int)) == if in_tok {
                views(done@).push(cur@)
            } else {
                views(done@)
            },
        decreases n - i,
    {
        let b = s[i];
        let ghost pre = s@.subrange(0, i as int);
        assert(s@.subrange(0, i + 1).drop_last() =~= pre);
        assert(s@.subrange(0, i + 1).last() == b);
        if b == 9 || b == 10 || b == 11 || b == 12 || b == 13 || b == 32 {
            if in_tok {
                let ghost old_done = done@;
                done.push(cur);
                cur = Vec::new();
                assert(views(done@) =~= views(old_done).push(views(done@).last()));
            }
            in_tok = false;
        } else {
            if in_tok {
                assert(pre.last() == s@[i - 1]);
                let ghost t = tokens(pre);
                cur.push(b);
                assert(t.update(t.len() - 1, t.last().push(b)) =~= views(done@).push(cur@));
            } else {
                cur.push(b);
                assert(cur@ =~= seq![b]);
            }
            in_tok = true;
        }
        i = i + 1;
    }
    assert(s@.subrange(0, n as int) =~= s@);
    if in_tok {
        let ghost old_done = done@;
        done.push(cur);
        assert(views(done@) =~= views(old_done).push(views(done@).last()));
    }
    done
}

/// The value of all digits is at least that of any first part of them.
proof fn lemma_digits_prefix(d: Seq<u8>, k: int)
    requires
        all_digits(d),
        0 <= k <= d.len(),
    ensures
        digits_value(d) >= digits_value(d.subrange(0, k)),
        digits_value(d) >= 0,
    decreases d.len(),
{
    if d.len() > 0 {
        let init = d.drop_last();
        assert(all_digits(init)) by {
            assert forall|i: int| 0 <= i < init.len() implies is_digit(#[trigger] init[i]) by {
                assert(init[i] == d[i]);
            }
        }
        assert(is_digit(d[d.len() - 1]));
        if k == d.len() {
            assert(d.subrange(0, k) =~= d);
            lemma_digits_prefix(init, 0);
        } else {
            assert(init.subrange(0, k) =~= d.subrange(0, k));
            lemma_digits_prefix(init, k);
        }
    } else {
        assert(d.subrange(0, k) =~= d);
    }
}

/// Reads a field as an `i32`: an optional `+` or `-`, then decimal digits.
pub fn parse_i32(t: &[u8]) -> (r: Option<i32>)
    ensures
        r == token_i32(t@),
{
    let n = t.len();
    if n == 0 {
        return None;
    }
    let neg = t[0] == 45;
    let start: usize = if t[0] == 45 || t[0] == 43 { 1 } else { 0 };
    let ghost d = t@.subrange(start as int, n as int);
    if start == 1 {
        assert(d =~= t@.drop_first());
    } else {
        assert(d =~= t@);
    }
    if start >= n {
        return None;
    }
    let mut v: i64 = 0;
    let mut i: usize = start;
    assert(d.subrange(0, 0) =~= Seq::<u8>::empty());
    while i < n
        invariant
            start <= i <= n,
            start <= 1,
            n == t@.len(),
            d == t@.subrange(start as int, n as int),
            n > 0,
            neg == (t@[0] == 45),
            (start == 1) == (t@[0] == 45 || t@[0] == 43),
            start == 1 ==> d == t@.drop_first(),
            start == 0 ==> d == t@,
            d.len() > 0,
            all_digits(d.subrange(0, i - start)),
            v == digits_value(d.subrange(0, i - start)),
            0 <= v <= 0x8000_0000,
        decreases n - i,
    {
        let b = t[i];
        assert(d[i - start] == b);
        if b < 48 || b > 57 {
            assert(!all_digits(d));
            return None;
        }
        assert(d.subrange(0, i + 1 - start).drop_last() =~= d.subrange(0, i - start));
        v = v * 10 + (b - 48) as i64;
        assert(d.subrange(0, i + 1 - start).last() == b);
        assert(v == digits_value(d.subrange(0, i + 1 - start)));
        assert(all_digits(d.subrange(0, i + 1 - start))) by {
            let e = d.subrange(0, i + 1 - start);
            assert forall|k: int| 0 <= k < e.len() implies is_digit(#[trigger] e[k]) by {
                if k < e.len() - 1 {
                    assert(e[k] == d.subrange(0, i - start)[k]);
                }
            }
        }
        if v > 0x8000_0000 {
            proof {
                if all_digits(d) {
                    lemma_digits_prefix(d, (i + 1 - start) as int);
                    assert(digits_value(d) > 0x8000_0000);
                    if start == 1 {
                        assert(token_value(t@) == Some(
                            if t@[0] == 45 { -digits_value(d) } else { digits_value(d) },
                        ));
                    } else {
                        assert(token_value(t@) == Some(digits_value(d)));
                    }
                } else {
                    assert(token_value(t@) is None);
                }
            }
            return None;
        }
        i = i + 1;
    }
    assert(d.subrange(0, n - start) =~= d);
    if neg {
        Some((-v) as i32)
    } else if v <= 0x7fff_ffff {
        Some(v as i32)
    } else {
        None
    }
}

/// Reads one line of a coordinate list.
pub fn parse_coordinate_line(line: &[u8]) -> (r: Result<Segment, CoordError>)
    ensures
        r == line_result(line@),
{
    let f = split_fields(line);
    if f.len() != 4 {
        return Err(CoordError::WrongCount(f.len()));
    }
    assert(f@[0]@ == tokens(line@)[0]);
    assert(f@[1]@ == tokens(line@)[1]);
    assert(f@[2]@ == tokens(line@)[2]);
    assert(f@[3]@ == tokens(line@)[3]);
    let a = parse_i32(f[0].as_slice());
    let b = parse_i32(f[1].as_slice());
    let c = parse_i32(f[2].as_slice());
    let d = parse_i32(f[3].as_slice());
    match (a, b, c, d) {
        (Some(a), Some(b), Some(c), Some(d)) => Ok(((a, b), (c, d))),
        _ => Err(CoordError::BadNumber),
    }
}

/// Appends the decimal digits of `n`.
fn push_digits(buf: &mut Vec<u8>, n: u32)
    ensures
        final(buf)@ == old(buf)@ + digits_of(n as nat),
    decreases n,
{
    if n >= 10 {
        push_digits(buf, n / 10);
    }
    buf.push(48 + (n % 10) as u8);
    if n >= 10 {
        assert(old(buf)@ + digits_of(n as nat) =~= old(buf)@ + digits_of((n / 10) as nat) + seq![
            (48 + n % 10) as u8,
        ]);
    } else {
        assert(old(buf)@ + digits_of(n as nat) =~= old(buf)@ + seq![(48 + n) as u8]);
    }
    assert(final(buf)@ == old(buf)@ + digits_of(n as nat));
}

/// Appends `v` in decimal.
fn push_decimal(buf: &mut Vec<u8>, v: i32)
    ensures
        final(buf)@ == old(buf)@ + decimal(v as int),
{
    if v < 0 {
        buf.push(45);
        let m: u32 = (-(v as i64)) as u32;
        push_digits(buf, m);
        assert(old(buf)@ + decimal(v as int) =~= old(buf)@.push(45) + digits_of(m as nat));
    } else {
        push_digits(buf, v as u32);
    }
}

/// The threads as text, one line `x1 y1 x2 y2` per thread.
pub fn format_coordinates(segs: &Vec<Segment>) -> (r: Vec<u8>)
    ensures
        r@ == coordinates_text(segs@),
{
    let mut buf: Vec<u8> = Vec::new();
    let mut k: usize = 0;
    assert(segs@.subrange(0, 0) =~= Seq::<Segment>::empty());
    while k < segs.len()
        invariant
            k <= segs@.len(),
            buf@ == coordinates_text(segs@.subrange(0, k as int)),
        decreases segs@.len() - k,
    {
        let ((x1, y1), (x2, y2)) = segs[k];
        let ghost before = buf@;
        push_decimal(&mut buf, x1);
        buf.push(32);
        push_decimal(&mut buf, y1);
        buf.push(32);
        push_decimal(&mut buf, x2);
        buf.push(32);
        push_decimal(&mut buf, y2);
        buf.push(10);
        assert(segs@.subrange(0, k + 1).drop_last() =~= segs@.subrange(0, k as int));
        assert(buf@ =~= before + segment_line(segs@[k as int]));
        k = k + 1;
    }
    assert(segs@.subrange(0, segs@.len() as int) =~= segs@);
    buf
}

/// A byte string with no whitespace in it.
pub open spec fn is_word(w: Seq<u8>) -> bool {
    w.len() > 0 && forall|i: int| 0 <= i < w.len() ==> !is_space(#[trigger] w[i])
}

proof fn lemma_tokens_nonempty(s: Seq<u8>)
    requires
        s.len() > 0,
        !is_space(s.last()),
    ensures
        tokens(s).len() > 0,
{
}

/// Text after a whitespace byte starts fields of its own.
proof fn lemma_tokens_concat(x: Seq<u8>, y: Seq<u8>)
    requires
        x.len() == 0 || is_space(x.last()),
    ensures
        tokens(x + y) == tokens(x) + tokens(y),
    decreases y.len(),
{
    if y.len() == 0 {
        assert(x + y =~= x);
        assert(tokens(y) =~= Seq::<Seq<u8>>::empty());
        assert(tokens(x) + tokens(y) =~= tokens(x));
    } else {
        let yi = y.drop_last();
        let b = y.last();
        assert((x + y).drop_last() =~= x + yi);
        assert((x + y).last() == b);
        lemma_tokens_concat(x, yi);
        let tx = tokens(x);
        let ty = tokens(yi);
        if is_space(b) {
        } else if yi.len() > 0 && !is_space(yi.last()) {
            lemma_tokens_nonempty(yi);
            assert((x + yi).last() == yi.last());
            assert((tx + ty).update((tx + ty).len() - 1, (tx + ty).last().push(b)) =~= tx + ty.update(
                ty.len() - 1,
                ty.last().push(b),
            ));
        } else {
            if yi.len() == 0 {
                assert(x + yi =~= x);
            } else {
                assert((x + yi).last() == yi.last());
            }
            assert((tx + ty).push(seq![b]) =~= tx + ty.push(seq![b]));
        }
    }
}

proof fn lemma_tokens_word(w: Seq<u8>)
    requires
        is_word(w),
    ensures
        tokens(w) == seq![w],
    decreases w.len(),
{
    let wi = w.drop_last();
    assert(!is_space(w[w.len() - 1]));
    if wi.len() == 0 {
        assert(tokens(wi) =~= Seq::<Seq<u8>>::empty());
        assert(seq![w.last()] =~= w);
        assert(tokens(w) =~= seq![w]);
    } else {
        assert(is_word(wi)) by {
            assert forall|i: int| 0 <= i < wi.len() implies !is_space(#[trigger] wi[i]) by {
                assert(wi[i] == w[i]);
            }
        }
        lemma_tokens_word(wi);
        assert(!is_space(w[wi.len() - 1]));
        assert(wi.push(w.last()) =~= w);
        assert(tokens(w) =~= seq![w]);
    }
}

proof fn lemma_word_then_space(p: Seq<u8>, w: Seq<u8>, sp: u8)
    requires
        p.len() == 0 || is_space(p.last()),
        is_word(w),
        is_space(sp),
    ensures
        tokens(p + w + seq![sp]) == tokens(p).push(w),
        is_space((p + w + seq![sp]).last()),
{
    let y = w + seq![sp];
    assert(p + w + seq![sp] =~= p + y);
    lemma_tokens_concat(p, y);
    assert(y.drop_last() =~= w);
    lemma_tokens_word(w);
    assert(tokens(y) == tokens(w));
    assert(tokens(p) + seq![w] =~= tokens(p).push(w));
}

proof fn lemma_digits(n: nat)
    ensures
        digits_of(n).len() > 0,
        all_digits(digits_of(n)),
        digits_value(digits_of(n)) == n,
    decreases n,
{
    let d = digits_of(n);
    if n < 10 {
        assert(d.drop_last() =~= Seq::<u8>::empty());
        assert(d.last() == 48 + n);
        assert(digits_value(d.drop_last()) == 0);
        assert(digits_value(d) == digits_value(d.drop_last()) * 10 + (d.last() - 48));
    } else {
        lemma_digits(n / 10);
        assert(d.drop_last() =~= digits_of(n / 10));
        assert(d.last() == 48 + n % 10);
        assert((n / 10) * 10 + n % 10 == n);
        assert(digits_value(d) == digits_value(d.drop_last()) * 10 + (d.last() - 48));
        assert forall|i: int| 0 <= i < d.len() implies is_digit(#[trigger] d[i]) by {
            if i < d.len() - 1 {
                assert(d[i] == digits_of(n / 10)[i]);
            }
        }
    }
}

proof fn lemma_decimal(v: i32)
    ensures
        is_word(decimal(v as int)),
        token_i32(decimal(v as int)) == Some(v),
{
    let t = decimal(v as int);
    if v < 0 {
        let d = digits_of((-v) as nat);
        lemma_digits((-v) as nat);
        assert(t.drop_first() =~= d);
        assert forall|i: int| 0 <= i < t.len() implies !is_space(#[trigger] t[i]) by {
            if i > 0 {
                assert(t[i] == d[i - 1]);
            }
        }
    } else {
        lemma_digits(v as nat);
        assert(is_digit(t[0]));
        assert forall|i: int| 0 <= i < t.len() implies !is_space(#[trigger] t[i]) by {
            assert(is_digit(t[i]));
        }
    }
}

/// Round trip: the line written for a thread reads back as that thread.
pub proof fn law_line_round_trip(s: Segment)
    ensures
        line_result(segment_line(s)) == Ok::<Segment, CoordError>(s),
{
    let d1 = decimal(s.0.0 as int);
    let d2 = decimal(s.0.1 as int);
    let d3 = decimal(s.1.0 as int);
    let d4 = decimal(s.1.1 as int);
    lemma_decimal(s.0.0);
    lemma_decimal(s.0.1);
    lemma_decimal(s.1.0);
    lemma_decimal(s.1.1);
    let e = Seq::<u8>::empty();
    let p1 = e + d1 + seq![32u8];
    lemma_word_then_space(e, d1, 32);
    let p2 = p1 + d2 + seq![32u8];
    lemma_word_then_space(p1, d2, 32);
    let p3 = p2 + d3 + seq![32u8];
    lemma_word_then_space(p2, d3, 32);
    let p4 = p3 + d4 + seq![10u8];
    lemma_word_then_space(p3, d4, 10);
    assert(tokens(e) =~= Seq::<Seq<u8>>::empty());
    assert(segment_line(s) =~= p4);
    assert(tokens(p4) =~= seq![d1, d2, d3, d4]);
}

} // verus!
