//! Text that the `slab` tool shows: hex dumps of records and summary
//! statistics of record and page sizes.
use vstd::prelude::*;
use crate::page::concat;

verus! {

/// The lower-case hex digit of `n < 16`, as an ASCII byte.
pub open spec fn hex_digit(n: nat) -> u8 {
    if n < 10 {
        (48 + n) as u8
    } else {
        (87 + n) as u8
    }
}

/// `v` in lower-case hex, zero-padded to at least `width` digits (as
/// `{:0width$x}` formats it).
pub open spec fn hex_padded(v: nat, width: nat) -> Seq<u8>
    decreases v + width,
{
    if v == 0 && width == 0 {
        Seq::empty()
    } else {
        hex_padded(v / 16, if width > 0 {
            (width - 1) as nat
        } else {
            0
        }).push(hex_digit(v % 16))
    }
}

/// How a byte shows in the ASCII column: itself when it is a visible ASCII
/// character or a space, else a dot.
pub open spec fn shown_byte(b: u8) -> u8 {
    if 32 <= b <= 126 {
        b
    } else {
        46
    }
}

/// The hex column of a chunk: each byte as two digits and a space, with an
/// extra space before the ninth.
pub open spec fn hex_column(chunk: Seq<u8>) -> Seq<u8> {
    concat(
        Seq::new(
            chunk.len(),
            |j: int|
                (if j == 8 {
                    seq![32u8]
                } else {
                    Seq::empty()
                }) + hex_padded(chunk[j] as nat, 2) + seq![32u8],
        ),
    )
}

/// `n` spaces.
pub open spec fn spaces(n: nat) -> Seq<u8> {
    Seq::new(n, |i: int| 32u8)
}

/// The dump line of the `i`-th chunk of 16 bytes (the last may be shorter):
/// two spaces, the offset in 8 hex digits, two spaces, the hex column padded
/// to full width, a space and the bytes between bars.
pub open spec fn dump_line(chunk: Seq<u8>, i: nat) -> Seq<u8> {
    spaces(2) + hex_padded(16 * i, 8) + spaces(2) + hex_column(chunk) + spaces(
        (3 * (16 - chunk.len())) as nat,
    ) + (if chunk.len() <= 8 {
        spaces(1)
    } else {
        Seq::empty()
    }) + seq![32u8, 124u8] + Seq::new(chunk.len(), |j: int| shown_byte(chunk[j])) + seq![124u8, 10u8]
}

/// The `i`-th chunk of 16 bytes of `data`.
pub open spec fn chunk_at(data: Seq<u8>, i: int) -> Seq<u8> {
    data.subrange(16 * i, if 16 * i + 16 <= data.len() {
        16 * i + 16
    } else {
        data.len() as int
    })
}

/// How many chunks of 16 bytes `data` splits into.
pub open spec fn chunk_count(data: Seq<u8>) -> nat {
    ((data.len() + 15) / 16) as nat
}

/// The hex dump of `data`: one line per chunk of 16 bytes.
pub open spec fn hex_dump_text(data: Seq<u8>) -> Seq<u8> {
    concat(Seq::new(chunk_count(data), |i: int| dump_line(chunk_at(data, i), i as nat)))
}

/// Appends `v` in hex, zero-padded to at least `width` digits.
fn push_hex(out: &mut Vec<u8>, v: u64, width: u64)
    ensures
        final(out)@ == old(out)@ + hex_padded(v as nat, width as nat),
{
    let mut digits: Vec<u8> = Vec::new();
    let mut x = v;
    let mut w = width;
    while x > 0 || w > 0
        invariant
            hex_padded(v as nat, width as nat) == hex_padded(x as nat, w as nat) + digits@.reverse(),
        decreases x, w,
    {
        let d = (x % 16) as u8;
        let c = if d < 10 {
            48 + d
        } else {
            87 + d
        };
        proof {
            assert(c == hex_digit((x % 16) as nat));
            assert(digits@.push(c).reverse() =~= seq![c] + digits@.reverse());
        }
        digits.push(c);
        x = x / 16;
        w = if w > 0 {
            w - 1
        } else {
            0
        };
    }
    assert(hex_padded(0, 0) == Seq::<u8>::empty());
    let n = digits.len();
    let ghost rev = digits@.reverse();
    let mut k: usize = 0;
    while k < n
        invariant
            n == digits@.len(),
            rev == digits@.reverse(),
            0 <= k <= n,
            out@ == old(out)@ + rev.take(k as int),
        decreases n - k,
    {
        out.push(digits[n - 1 - k]);
        k = k + 1;
        assert(out@ =~= old(out)@ + rev.take(k as int));
    }
    assert(rev.take(n as int) =~= rev);
}

/// Appends `n` spaces.
fn push_spaces(out: &mut Vec<u8>, n: usize)
    ensures
        final(out)@ == old(out)@ + spaces(n as nat),
{
    let mut k: usize = 0;
    while k < n
        invariant
            0 <= k <= n,
            out@ == old(out)@ + spaces(k as nat),
        decreases n - k,
    {
        out.push(32);
        k = k + 1;
        assert(out@ =~= old(out)@ + spaces(k as nat));
    }
}

/// Appends the hex column of `data[start..end]`.
fn push_hex_column(out: &mut Vec<u8>, data: &[u8], start: usize, end: usize)
    requires
        start <= end <= data@.len(),
    ensures
        final(out)@ == old(out)@ + hex_column(data@.subrange(start as int, end as int)),
{
    let ghost chunk = data@.subrange(start as int, end as int);
    let len = end - start;
    let ghost head = out@;
    let ghost pieces = Seq::new(
        chunk.len(),
        |j: int|
            (if j == 8 {
                seq![32u8]
            } else {
                Seq::empty()
            }) + hex_padded(chunk[j] as nat, 2) + seq![32u8],
    );
    let mut j: usize = 0;
    proof {
        assert(pieces.take(0) =~= Seq::<Seq<u8>>::empty());
        assert(out@ =~= head + concat(pieces.take(0)));
    }
    while j < len
        invariant
            len == chunk.len(),
            end == start + len,
            end <= data@.len(),
            chunk == data@.subrange(start as int, end as int),
            0 <= j <= len,
            out@ == head + concat(pieces.take(j as int)),
            pieces == Seq::new(
                chunk.len(),
                |j: int|
                    (if j == 8 {
                        seq![32u8]
                    } else {
                        Seq::empty()
                    }) + hex_padded(chunk[j] as nat, 2) + seq![32u8],
            ),
        decreases len - j,
    {
        let ghost before = out@;
        if j == 8 {
            out.push(32);
        }
        push_hex(out, data[start + j] as u64, 2);
        out.push(32);
        proof {
            assert(data@[start + j] == chunk[j as int]);
            crate::page::lemma_concat_step(pieces, j as int);
            assert(out@ =~= before + pieces[j as int]);
        }
        j = j + 1;
    }
    proof {
        assert(pieces.take(len as int) =~= pieces);
    }
}

/// Appends the ASCII column of `data[start..end]`.
fn push_shown(out: &mut Vec<u8>, data: &[u8], start: usize, end: usize)
    requires
        start <= end <= data@.len(),
    ensures
        final(out)@ == old(out)@ + Seq::new(
            (end - start) as nat,
            |m: int| shown_byte(data@.subrange(start as int, end as int)[m]),
        ),
{
    let ghost chunk = data@.subrange(start as int, end as int);
    let len = end - start;
    let ghost head = out@;
    let mut k: usize = 0;
    proof {
        assert(out@ =~= head + Seq::new(0, |m: int| shown_byte(chunk[m])));
    }
    while k < len
        invariant
            len == chunk.len(),
            end == start + len,
            end <= data@.len(),
            chunk == data@.subrange(start as int, end as int),
            0 <= k <= len,
            out@ == head + Seq::new(k as nat, |m: int| shown_byte(chunk[m])),
        decreases len - k,
    {
        let b = data[start + k];
        let s = if 32 <= b && b <= 126 {
            b
        } else {
            46
        };
        proof {
            assert(data@[start + k] == chunk[k as int]);
        }
        out.push(s);
        k = k + 1;
        assert(out@ =~= head + Seq::new(k as nat, |m: int| shown_byte(chunk[m])));
    }
}

/// Appends the dump line of `data[start..end]`, the `i`-th chunk.
fn push_dump_line(out: &mut Vec<u8>, data: &[u8], start: usize, end: usize, i: usize)
    requires
        start <= end <= data@.len(),
        end - start <= 16,
        16 * i == start,
    ensures
        final(out)@ == old(out)@ + dump_line(data@.subrange(start as int, end as int), i as nat),
{
    let ghost chunk = data@.subrange(start as int, end as int);
    let len = end - start;
    push_spaces(out, 2);
    push_hex(out, start as u64, 8);
    push_spaces(out, 2);
    push_hex_column(out, data, start, end);
    push_spaces(out, 3 * (16 - len));
    if len <= 8 {
        push_spaces(out, 1);
    }
    out.push(32);
    out.push(124);
    push_shown(out, data, start, end);
    out.push(124);
    out.push(10);
    proof {
        assert(out@ =~= old(out)@ + dump_line(chunk, i as nat));
    }
}

/// A hex dump of `data`: for each chunk of 16 bytes, its offset in hex,
/// its bytes in hex and its bytes as ASCII (a dot for a byte that is not a
/// visible character or a space), one line each, as ASCII text.
pub fn hex_dump(data: &[u8]) -> (r: Vec<u8>)
    ensures
        r@ == hex_dump_text(data@),
{
    let n = data.len();
    let count = n / 16 + if n % 16 == 0 {
        0
    } else {
        1
    };
    assert(count == chunk_count(data@)) by (nonlinear_arith)
        requires
            count == n / 16 + if n % 16 == 0 {
                0int
            } else {
                1int
            },
            n == data@.len(),
            chunk_count(data@) == (data@.len() + 15) / 16,
    ;
    let ghost lines = Seq::new(chunk_count(data@), |i: int| dump_line(chunk_at(data@, i), i as nat));
    let mut out: Vec<u8> = Vec::new();
    let mut i: usize = 0;
    proof {
        assert(lines.take(0) =~= Seq::<Seq<u8>>::empty());
    }
    while i < count
        invariant
            n == data@.len(),
            count == chunk_count(data@),
            i <= count,
            lines == Seq::new(chunk_count(data@), |i: int| dump_line(chunk_at(data@, i), i as nat)),
            out@ == concat(lines.take(i as int)),
        decreases count - i,
    {
        assert(16 * i < n) by (nonlinear_arith)
            requires
                i < count,
                count == (n + 15) / 16,
        ;
        let start = 16 * i;
        let end = if n - start >= 16 {
            start + 16
        } else {
            n
        };
        push_dump_line(&mut out, data, start, end, i);
        proof {
            assert(chunk_at(data@, i as int) == data@.subrange(start as int, end as int));
            crate::page::lemma_concat_step(lines, i as int);
        }
        i = i + 1;
    }
    proof {
        assert(lines.take(count as int) =~= lines);
    }
    out
}

/// The smallest of `s` (0 for an empty sequence).
pub open spec fn seq_min(s: Seq<usize>) -> int
    decreases s.len(),
{
    if s.len() == 0 {
        0
    } else if s.len() == 1 {
        s[0] as int
    } else {
        let m = seq_min(s.drop_last());
        if s.last() < m {
            s.last() as int
        } else {
            m
        }
    }
}

/// The largest of `s` (0 for an empty sequence).
pub open spec fn seq_max(s: Seq<usize>) -> int
    decreases s.len(),
{
    if s.len() == 0 {
        0
    } else if s.len() == 1 {
        s[0] as int
    } else {
        let m = seq_max(s.drop_last());
        if s.last() > m {
            s.last() as int
        } else {
            m
        }
    }
}

/// The sum of `s`.
pub open spec fn seq_sum(s: Seq<usize>) -> int
    decreases s.len(),
{
    if s.len() == 0 {
        0
    } else {
        seq_sum(s.drop_last()) + s.last()
    }
}

/// The histogram bar a value falls in: `(v - lo) / width`, at most 4.
pub open spec fn bar_of(v: int, lo: int, width: int) -> int {
    if (v - lo) / width >= 4 {
        4
    } else {
        (v - lo) / width
    }
}

/// How many of `s` fall in bar `b`.
pub open spec fn bar_count(s: Seq<usize>, lo: int, width: int, b: int) -> nat
    decreases s.len(),
{
    if s.len() == 0 {
        0
    } else {
        bar_count(s.drop_last(), lo, width, b) + if bar_of(s.last() as int, lo, width) == b {
            1nat
        } else {
            0nat
        }
    }
}

/// The width of each of the five bars between `lo` and `hi`: a fifth of
/// the span, rounded up.
pub open spec fn bar_width(lo: int, hi: int) -> int {
    (hi - lo + 4) / 5
}

/// The length of the bar drawn for `count` of `n` values: `40 * count / n`,
/// and at least 1 when `count > 0`.
pub open spec fn bar_len(count: int, n: int) -> int {
    if count * 40 / n == 0 && count > 0 {
        1
    } else {
        count * 40 / n
    }
}

/// One bar of a histogram: the values from `lo` to `hi`, how many there
/// are, and how long the drawn bar is.
#[derive(Debug, Clone, Copy, PartialEq, Eq, Structural)]
pub struct Bar {
    /// The smallest value of the bar.
    pub lo: u128,
    /// The largest value of the bar.
    pub hi: u128,
    /// How many values fall in the bar.
    pub count: usize,
    /// How many `#` to draw.
    pub len: usize,
}

/// Summary statistics of a set of sizes, as `slab analyze` shows them.
#[derive(Debug, Clone)]
pub struct ValueStats {
    /// The smallest value.
    pub min: usize,
    /// The largest value.
    pub max: usize,
    /// The sum of the values.
    pub sum: u128,
    /// How many values there are.
    pub count: usize,
    /// Five bars of equal width from `min` to `max`, or none when all
    /// values are equal.
    pub histogram: Vec<Bar>,
}

/// Bar `b` of the histogram of `s`.
pub open spec fn bar_spec(s: Seq<usize>, b: int) -> Bar {
    let lo = seq_min(s);
    let hi = seq_max(s);
    let w = bar_width(lo, hi);
    let c = bar_count(s, lo, w, b);
    Bar {
        lo: (lo + b * w) as u128,
        hi: (if b == 4 {
            hi
        } else {
            lo + b * w + w - 1
        }) as u128,
        count: c as usize,
        len: bar_len(c as int, s.len() as int) as usize,
    }
}

proof fn lemma_min_max_bounds(s: Seq<usize>)
    requires
        s.len() > 0,
    ensures
        forall|i: int| 0 <= i < s.len() ==> seq_min(s) <= #[trigger] s[i] <= seq_max(s),
        0 <= seq_min(s) <= seq_max(s) <= usize::MAX,
        0 <= seq_sum(s) <= s.len() * usize::MAX,
    decreases s.len(),
{
    if s.len() > 1 {
        let d = s.drop_last();
        lemma_min_max_bounds(d);
        assert forall|i: int| 0 <= i < s.len() implies seq_min(s) <= #[trigger] s[i] <= seq_max(s) by {
            if i < s.len() - 1 {
                assert(s[i] == d[i]);
            }
        }
        assert(seq_sum(s) <= s.len() * usize::MAX) by (nonlinear_arith)
            requires
                seq_sum(s) == seq_sum(d) + s.last(),
                seq_sum(d) <= d.len() * usize::MAX,
                d.len() + 1 == s.len(),
                s.last() <= usize::MAX,
        ;
    } else {
        assert(seq_sum(s.drop_last()) == 0);
    }
}

proof fn lemma_bar_count_bound(s: Seq<usize>, lo: int, width: int, b: int)
    ensures
        bar_count(s, lo, width, b) <= s.len(),
    decreases s.len(),
{
    if s.len() > 0 {
        lemma_bar_count_bound(s.drop_last(), lo, width, b);
    }
}

/// The smallest, largest and total of `values`, how many there are, and a
/// five-bar histogram of them, or `None` when there are no values.
pub fn value_stats(values: &[usize]) -> (r: Option<ValueStats>)
    ensures
        match r {
            None => values@.len() == 0,
            Some(st) => {
                &&& values@.len() > 0
                &&& st.min == seq_min(values@)
                &&& st.max == seq_max(values@)
                &&& st.sum == seq_sum(values@)
                &&& st.count == values@.len()
                &&& st.histogram@.len() == if st.max > st.min {
                    5int
                } else {
                    0
                }
                &&& forall|b: int| 0 <= b < st.histogram@.len() ==> #[trigger] st.histogram@[b] == bar_spec(values@, b)
            },
        },
{
    let n = values.len();
    if n == 0 {
        return None;
    }
    proof {
        lemma_min_max_bounds(values@);
    }
    let mut min = values[0];
    let mut max = values[0];
    let mut sum: u128 = values[0] as u128;
    let mut i: usize = 1;
    proof {
        assert(values@.take(1) =~= seq![values@[0]]);
        assert(values@.take(1).drop_last() =~= Seq::<usize>::empty());
        assert(seq_sum(Seq::<usize>::empty()) == 0);
        assert(seq_sum(values@.take(1)) == values@[0] as int);
    }
    while i < n
        invariant
            n == values@.len(),
            1 <= i <= n,
            min == seq_min(values@.take(i as int)),
            max == seq_max(values@.take(i as int)),
            sum == seq_sum(values@.take(i as int)),
            sum <= i * usize::MAX,
        decreases n - i,
    {
        proof {
            assert(values@.take(i + 1).drop_last() =~= values@.take(i as int));
        }
        let v = values[i];
        if v < min {
            min = v;
        }
        if v > max {
            max = v;
        }
        assert(sum + v <= (i + 1) * usize::MAX) by (nonlinear_arith)
            requires
                sum <= i * usize::MAX,
                v <= usize::MAX,
        ;
        assert((i + 1) * usize::MAX <= u128::MAX) by (nonlinear_arith)
            requires
                i < usize::MAX,
        ;
        sum = sum + v as u128;
        i = i + 1;
    }
    assert(values@.take(n as int) =~= values@);
    let mut histogram: Vec<Bar> = Vec::new();
    if max > min {
        let lo = min as u128;
        let w: u128 = ((max - min) as u128 + 4) / 5;
        let ghost wi = bar_width(min as int, max as int);
        assert(w == wi);
        let mut counts: Vec<usize> = vec![0, 0, 0, 0, 0];
        let mut k: usize = 0;
        proof {
            assert(values@.take(0) =~= Seq::<usize>::empty());
        }
        while k < n
            invariant
                n == values@.len(),
                0 <= k <= n,
                counts@.len() == 5,
                min == seq_min(values@),
                max == seq_max(values@),
                min < max,
                w == bar_width(min as int, max as int),
                w >= 1,
                forall|i: int| 0 <= i < values@.len() ==> min <= #[trigger] values@[i] <= max,
                forall|b: int| 0 <= b < 5 ==> #[trigger] counts@[b] == bar_count(
                    values@.take(k as int),
                    min as int,
                    w as int,
                    b,
                ),
            decreases n - k,
        {
            proof {
                assert(values@.take(k + 1).drop_last() =~= values@.take(k as int));
                assert forall|b: int| 0 <= b < 5 implies bar_count(
                    values@.take(k as int),
                    min as int,
                    w as int,
                    b,
                ) <= k by {
                    lemma_bar_count_bound(values@.take(k as int), min as int, w as int, b);
                }
            }
            let v = values[k];
            let q = (v - min) as u128 / w;
            let b: usize = if q >= 4 {
                4
            } else {
                q as usize
            };
            assert(b == bar_of(v as int, min as int, w as int));
            let c = counts[b];
            counts.set(b, c + 1);
            k = k + 1;
        }
        assert(values@.take(n as int) =~= values@);
        proof {
            assert forall|j: int| 0 <= j < 5 implies #[trigger] counts@[j] <= n by {
                lemma_bar_count_bound(values@, min as int, w as int, j);
            }
        }
        let mut b: usize = 0;
        while b < 5
            invariant
                n == values@.len(),
                n > 0,
                0 <= b <= 5,
                counts@.len() == 5,
                min == seq_min(values@),
                max == seq_max(values@),
                min < max,
                w == bar_width(min as int, max as int),
                w >= 1,
                w <= usize::MAX,
                lo == min,
                forall|j: int| 0 <= j < 5 ==> #[trigger] counts@[j] == bar_count(
                    values@,
                    min as int,
                    w as int,
                    j,
                ),
                forall|j: int| 0 <= j < 5 ==> #[trigger] counts@[j] <= n,
                histogram@.len() == b,
                forall|j: int| 0 <= j < b ==> #[trigger] histogram@[j] == bar_spec(values@, j),
            decreases 5 - b,
        {
            let c = counts[b];
            assert(b * w <= 4 * usize::MAX) by (nonlinear_arith)
                requires
                    b <= 4,
                    w <= usize::MAX,
            ;
            let start = lo + b as u128 * w;
            let hi = if b == 4 {
                max as u128
            } else {
                start + w - 1
            };
            let scaled = c as u128 * 40 / n as u128;
            let len: usize = if scaled == 0 && c > 0 {
                1
            } else {
                assert(scaled <= 40) by (nonlinear_arith)
                    requires
                        scaled == (c * 40) / (n as int),
                        c <= n,
                        n > 0,
                ;
                scaled as usize
            };
            histogram.push(Bar { lo: start, hi, count: c, len });
            b = b + 1;
        }
    }
    Some(ValueStats { min, max, sum, count: n, histogram })
}

/// How many of `s` lie between `lo` and `hi`, both included.
pub open spec fn count_between(s: Seq<usize>, lo: int, hi: int) -> nat
    decreases s.len(),
{
    if s.len() == 0 {
        0
    } else {
        count_between(s.drop_last(), lo, hi) + if lo <= s.last() <= hi {
            1nat
        } else {
            0nat
        }
    }
}

/// A value `x` past `lo` falls in bar `b` of width `w` exactly when it lies
/// between the bar's first and last value (the last bar takes everything
/// from its first value on).
proof fn lemma_bar_of_range(v: int, lo: int, w: int, b: int)
    requires
        w > 0,
        lo <= v,
        0 <= b < 5,
    ensures
        bar_of(v, lo, w) == b <==> lo + b * w <= v && (b == 4 || v <= lo + b * w + w - 1),
{
    let x = v - lo;
    let q = x / w;
    vstd::arithmetic::div_mod::lemma_fundamental_div_mod(x, w);
    vstd::arithmetic::div_mod::lemma_mod_pos_bound(x, w);
    let r = x % w;
    assert(x == w * q + r);
    assert(q >= 0) by (nonlinear_arith)
        requires
            x == w * q + r,
            0 <= r < w,
            x >= 0,
    ;
    if q < b {
        assert(x < b * w) by (nonlinear_arith)
            requires
                x == w * q + r,
                0 <= r < w,
                q < b,
                q >= 0,
        ;
    } else if q > b {
        assert(x >= (b + 1) * w) by (nonlinear_arith)
            requires
                x == w * q + r,
                0 <= r < w,
                q > b,
        ;
        assert((b + 1) * w == b * w + w) by (nonlinear_arith);
    } else {
        assert(b * w <= x < b * w + w) by (nonlinear_arith)
            requires
                x == w * q + r,
                0 <= r < w,
                q == b,
        ;
    }
}

/// Counting one bar's values by dividing agrees with counting the values
/// between the bar's ends.
proof fn lemma_bar_count_between(s: Seq<usize>, lo: int, hi: int, w: int, b: int)
    requires
        w > 0,
        0 <= b < 5,
        forall|i: int| 0 <= i < s.len() ==> lo <= #[trigger] s[i] <= hi,
    ensures
        bar_count(s, lo, w, b) == count_between(
            s,
            lo + b * w,
            if b == 4 {
                hi
            } else {
                lo + b * w + w - 1
            },
        ),
    decreases s.len(),
{
    if s.len() > 0 {
        let d = s.drop_last();
        assert forall|i: int| 0 <= i < d.len() implies lo <= #[trigger] d[i] <= hi by {
            assert(d[i] == s[i]);
        }
        lemma_bar_count_between(d, lo, hi, w, b);
        assert(s.last() == s[s.len() - 1]);
        lemma_bar_of_range(s.last() as int, lo, w, b);
    }
}

/// The histogram of values that are not all equal: its first bar begins
/// at the smallest value and its last ends at the largest; each bar begins
/// right after the one before it; the first four all have the width `w`
/// that is the smallest with `5 * w` at least the span of the values; and
/// each bar counts exactly the values between its ends.
pub proof fn lemma_histogram_bars(s: Seq<usize>)
    requires
        s.len() > 0,
        s.len() <= usize::MAX,
        seq_min(s) < seq_max(s),
    ensures
        bar_spec(s, 0).lo == seq_min(s),
        bar_spec(s, 4).hi == seq_max(s),
        5 * (bar_spec(s, 0).hi - bar_spec(s, 0).lo + 1) >= seq_max(s) - seq_min(s),
        5 * (bar_spec(s, 0).hi - bar_spec(s, 0).lo) < seq_max(s) - seq_min(s),
        forall|b: int|
            0 <= b < 4 ==> #[trigger] bar_spec(s, b).hi - bar_spec(s, b).lo == bar_spec(s, 0).hi
                - bar_spec(s, 0).lo,
        forall|b: int| 0 <= b < 4 ==> #[trigger] bar_spec(s, b + 1).lo == bar_spec(s, b).hi + 1,
        forall|b: int|
            0 <= b < 5 ==> #[trigger] bar_spec(s, b).count == count_between(
                s,
                bar_spec(s, b).lo as int,
                bar_spec(s, b).hi as int,
            ),
{
    lemma_min_max_bounds(s);
    let lo = seq_min(s);
    let hi = seq_max(s);
    let w = bar_width(lo, hi);
    assert(1 <= w <= hi - lo);
    assert(5 * w >= hi - lo && 5 * (w - 1) < hi - lo);
    assert forall|b: int| 0 <= b < 5 implies (#[trigger] bar_spec(s, b)).lo == lo + b * w
        && bar_spec(s, b).hi == (if b == 4 {
        hi
    } else {
        lo + b * w + w - 1
    }) by {
        assert(0 <= b * w <= 4 * w) by (nonlinear_arith)
            requires
                0 <= b < 5,
                w >= 1,
        ;
    }
    assert forall|b: int| 0 <= b < 4 implies #[trigger] bar_spec(s, b + 1).lo == bar_spec(s, b).hi + 1 by {
        assert(bar_spec(s, b + 1).lo == lo + (b + 1) * w);
        assert((b + 1) * w == b * w + w) by (nonlinear_arith);
    }
    assert forall|b: int| 0 <= b < 5 implies #[trigger] bar_spec(s, b).count == count_between(
        s,
        bar_spec(s, b).lo as int,
        bar_spec(s, b).hi as int,
    ) by {
        lemma_bar_count_between(s, lo, hi, w, b);
        lemma_bar_count_bound(s, lo, w, b);
    }
}

/// The smallest and largest of some values are among them and bound all
/// of them; their total is at least the count times the smallest and at
/// most the count times the largest, and taking one more value first adds
/// it to the total.
pub proof fn lemma_value_summary(s: Seq<usize>, x: usize)
    requires
        s.len() > 0,
    ensures
        exists|i: int| 0 <= i < s.len() && #[trigger] s[i] == seq_min(s),
        exists|i: int| 0 <= i < s.len() && #[trigger] s[i] == seq_max(s),
        forall|i: int| 0 <= i < s.len() ==> seq_min(s) <= #[trigger] s[i] <= seq_max(s),
        s.len() * seq_min(s) <= seq_sum(s) <= s.len() * seq_max(s),
        seq_sum(seq![x] + s) == x + seq_sum(s),
    decreases s.len(),
{
    lemma_min_max_bounds(s);
    lemma_extremes_present(s);
    lemma_sum_between(s, seq_min(s), seq_max(s));
    lemma_sum_prepend(s, x);
}

proof fn lemma_extremes_present(s: Seq<usize>)
    requires
        s.len() > 0,
    ensures
        exists|i: int| 0 <= i < s.len() && #[trigger] s[i] == seq_min(s),
        exists|i: int| 0 <= i < s.len() && #[trigger] s[i] == seq_max(s),
    decreases s.len(),
{
    if s.len() > 1 {
        let d = s.drop_last();
        lemma_extremes_present(d);
        let i = choose|i: int| 0 <= i < d.len() && #[trigger] d[i] == seq_min(d);
        let k = choose|k: int| 0 <= k < d.len() && #[trigger] d[k] == seq_max(d);
        assert(s[i] == d[i] && s[k] == d[k]);
        assert(s[s.len() - 1] == s.last());
    } else {
        assert(s[0] == seq_min(s));
    }
}

proof fn lemma_sum_between(s: Seq<usize>, lo: int, hi: int)
    requires
        forall|i: int| 0 <= i < s.len() ==> lo <= #[trigger] s[i] <= hi,
    ensures
        s.len() * lo <= seq_sum(s) <= s.len() * hi,
    decreases s.len(),
{
    if s.len() > 0 {
        let d = s.drop_last();
        assert forall|i: int| 0 <= i < d.len() implies lo <= #[trigger] d[i] <= hi by {
            assert(d[i] == s[i]);
        }
        lemma_sum_between(d, lo, hi);
        assert(s[s.len() - 1] == s.last());
        assert(s.len() * lo <= seq_sum(s) <= s.len() * hi) by (nonlinear_arith)
            requires
                d.len() * lo <= seq_sum(d) <= d.len() * hi,
                seq_sum(s) == seq_sum(d) + s.last(),
                lo <= s.last() <= hi,
                s.len() == d.len() + 1,
        ;
    }
}

proof fn lemma_sum_prepend(s: Seq<usize>, x: usize)
    ensures
        seq_sum(seq![x] + s) == x + seq_sum(s),
    decreases s.len(),
{
    let t = seq![x] + s;
    if s.len() > 0 {
        lemma_sum_prepend(s.drop_last(), x);
        assert(t.drop_last() =~= seq![x] + s.drop_last());
        assert(t.last() == s.last());
        assert(seq_sum(t) == seq_sum(t.drop_last()) + t.last());
        assert(seq_sum(s) == seq_sum(s.drop_last()) + s.last());
    } else {
        assert(t.drop_last() =~= Seq::<usize>::empty());
        assert(t.len() == 1 && t.last() == x);
        assert(seq_sum(t) == seq_sum(t.drop_last()) + t.last());
    }
}

/// A drawn bar is at most 40 long, at least 1 long when it counts any
/// value, and otherwise `40 * count / n` rounded down: `len * n` is at most
/// `40 * count` and `(len + 1) * n` exceeds it.
pub proof fn lemma_bar_length(count: int, n: int)
    requires
        0 <= count <= n,
        n > 0,
    ensures
        count > 0 ==> bar_len(count, n) >= 1,
        count == 0 ==> bar_len(count, n) == 0,
        bar_len(count, n) <= 40,
        40 * count >= n ==> bar_len(count, n) * n <= 40 * count < (bar_len(count, n) + 1) * n,
{
    let q = count * 40 / n;
    vstd::arithmetic::div_mod::lemma_fundamental_div_mod(count * 40, n);
    vstd::arithmetic::div_mod::lemma_mod_pos_bound(count * 40, n);
    let r = (count * 40) % n;
    assert(count * 40 == n * q + r);
    assert(0 <= q <= 40) by (nonlinear_arith)
        requires
            count * 40 == n * q + r,
            0 <= r < n,
            0 <= count <= n,
    ;
    if 40 * count >= n {
        assert(q >= 1) by (nonlinear_arith)
            requires
                count * 40 == n * q + r,
                0 <= r < n,
                40 * count >= n,
        ;
        assert(q * n <= 40 * count < (q + 1) * n) by (nonlinear_arith)
            requires
                count * 40 == n * q + r,
                0 <= r < n,
        ;
    }
    if count == 0 {
        assert(q == 0) by (nonlinear_arith)
            requires
                count * 40 == n * q + r,
                0 <= r < n,
                count == 0,
        ;
    }
}

} // verus!
