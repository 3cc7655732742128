//! The computations behind the `slab` maintenance tool: writer settings from
//! its flags, reordering records, page statistics, content detection, export
//! framing and the forward walk over a file's pages.
use vstd::prelude::*;
use crate::config::{WriterConfig, config_new_result};
use crate::constants::PageType;
use crate::error::SlabError;
use crate::footer::decode_footer;
use crate::page::{Page, concat, tail_footer};
use crate::reader::{
    page_at_ok, page_bytes_at, page_read_error, pairs_view, read_page_at, stored_size,
};
use crate::reader::{SlabReader, file_entries, page_records_at, page_start_at};
use crate::pages_page::PageEntry;
use crate::footer::ordinal_in_range;

verus! {

/// Build a `WriterConfig` from optional flags, falling back to the defaults
/// (512-byte minimum, 64 KiB preferred, 2^32 - 1 maximum).
pub fn make_writer_config(
    preferred_page_size: Option<u32>,
    min_page_size: Option<u32>,
    page_alignment: bool,
) -> (r: Result<WriterConfig, SlabError>)
    ensures
        config_new_result(
            match min_page_size {
                Some(m) => m,
                None => 512,
            },
            match preferred_page_size {
                Some(p) => p,
                None => 65536,
            },
            0xffff_ffff,
            page_alignment,
            r,
        ),
{
    let defaults = WriterConfig::default();
    let min = match min_page_size {
        Some(m) => m,
        None => defaults.min_page_size,
    };
    let preferred = match preferred_page_size {
        Some(p) => p,
        None => defaults.preferred_page_size,
    };
    WriterConfig::new(min, preferred, defaults.max_page_size, page_alignment)
}

/// Pairs whose ordinals never decrease.
pub open spec fn pairs_monotonic(s: Seq<(i64, Seq<u8>)>) -> bool {
    forall|i: int| 0 <= i < s.len() - 1 ==> (#[trigger] s[i]).0 <= s[i + 1].0
}

/// `s` with `e` inserted after the last pair whose ordinal is no greater.
pub open spec fn insert_by_ordinal(s: Seq<(i64, Seq<u8>)>, e: (i64, Seq<u8>)) -> Seq<(i64, Seq<u8>)>
    decreases s.len(),
{
    if s.len() == 0 {
        seq![e]
    } else if s.last().0 <= e.0 {
        s.push(e)
    } else {
        insert_by_ordinal(s.drop_last(), e).push(s.last())
    }
}

/// Pairs in stable order of ordinal (pairs with equal ordinals keep their
/// order).
pub open spec fn sort_by_ordinal(s: Seq<(i64, Seq<u8>)>) -> Seq<(i64, Seq<u8>)>
    decreases s.len(),
{
    if s.len() == 0 {
        s
    } else {
        insert_by_ordinal(sort_by_ordinal(s.drop_last()), s.last())
    }
}

/// Sorting pairs whose ordinals never decrease changes nothing.
pub proof fn lemma_sort_monotonic(s: Seq<(i64, Seq<u8>)>)
    requires
        pairs_monotonic(s),
    ensures
        sort_by_ordinal(s) == s,
    decreases s.len(),
{
    if s.len() > 0 {
        let d = s.drop_last();
        assert(pairs_monotonic(d)) by {
            assert forall|i: int| 0 <= i < d.len() - 1 implies (#[trigger] d[i]).0 <= d[i + 1].0 by {
                assert(s[i].0 <= s[i + 1].0);
            }
        }
        lemma_sort_monotonic(d);
        if d.len() > 0 {
            assert(s[d.len() - 1].0 <= s[d.len() as int].0);
        }
        assert(d.push(s.last()) =~= s);
    }
}

proof fn lemma_insert_by_ordinal(s: Seq<(i64, Seq<u8>)>, e: (i64, Seq<u8>))
    requires
        pairs_monotonic(s),
    ensures
        pairs_monotonic(insert_by_ordinal(s, e)),
        insert_by_ordinal(s, e).to_multiset() == s.to_multiset().insert(e),
        insert_by_ordinal(s, e).len() == s.len() + 1,
        insert_by_ordinal(s, e).last() == e || (s.len() > 0 && insert_by_ordinal(s, e).last()
            == s.last()),
    decreases s.len(),
{
    broadcast use vstd::seq_lib::to_multiset_build;

    if s.len() == 0 {
        assert(Seq::<(i64, Seq<u8>)>::empty().push(e) =~= seq![e]);
        assert(s =~= Seq::<(i64, Seq<u8>)>::empty());
    } else if s.last().0 <= e.0 {
        let r = s.push(e);
        assert forall|i: int| 0 <= i < r.len() - 1 implies (#[trigger] r[i]).0 <= r[i + 1].0 by {
            if i < s.len() - 1 {
                assert(s[i].0 <= s[i + 1].0);
            }
        }
    } else {
        let d = s.drop_last();
        assert(pairs_monotonic(d)) by {
            assert forall|i: int| 0 <= i < d.len() - 1 implies (#[trigger] d[i]).0 <= d[i + 1].0 by {
                assert(s[i].0 <= s[i + 1].0);
            }
        }
        lemma_insert_by_ordinal(d, e);
        let r = insert_by_ordinal(d, e);
        let l = s.last();
        assert(r.last().0 <= l.0) by {
            if r.last() != e {
                assert(s[d.len() - 1].0 <= s[d.len() as int].0);
                assert(d.last() == s[d.len() - 1]);
            }
        }
        let t = r.push(l);
        assert forall|i: int| 0 <= i < t.len() - 1 implies (#[trigger] t[i]).0 <= t[i + 1].0 by {
            if i < r.len() - 1 {
                assert(r[i].0 <= r[i + 1].0);
            }
        }
        assert(d.push(l) =~= s);
        assert(r.push(l).to_multiset() =~= s.to_multiset().insert(e)) by {
            assert(d.push(l).to_multiset() =~= d.to_multiset().insert(l));
        }
    }
}

/// Sorting by ordinal gives the same pairs (as a multiset) in order of
/// ordinal.
pub proof fn lemma_sort_by_ordinal(s: Seq<(i64, Seq<u8>)>)
    ensures
        pairs_monotonic(sort_by_ordinal(s)),
        sort_by_ordinal(s).to_multiset() == s.to_multiset(),
        sort_by_ordinal(s).len() == s.len(),
    decreases s.len(),
{
    broadcast use vstd::seq_lib::to_multiset_build;

    if s.len() == 0 {
    } else {
        let d = s.drop_last();
        lemma_sort_by_ordinal(d);
        lemma_insert_by_ordinal(sort_by_ordinal(d), s.last());
        assert(d.push(s.last()) =~= s);
    }
}

/// Inserts `e` after the last pair whose ordinal is no greater.
fn insert_pair(s: &mut Vec<(i64, Vec<u8>)>, e: (i64, Vec<u8>))
    ensures
        pairs_view(final(s)@) == insert_by_ordinal(pairs_view(old(s)@), (e.0, e.1@)),
{
    let ghost ev = (e.0, e.1@);
    let ghost target = insert_by_ordinal(pairs_view(old(s)@), ev);
    let mut tmp: Vec<(i64, Vec<u8>)> = Vec::new();
    while s.len() > 0 && s[s.len() - 1].0 > e.0
        invariant
            ev == (e.0, e.1@),
            target == insert_by_ordinal(pairs_view(s@), ev) + pairs_view(tmp@).reverse(),
        decreases s@.len(),
    {
        let ghost before = s@;
        let x = s.pop().unwrap();
        proof {
            assert(pairs_view(before).drop_last() =~= pairs_view(s@));
            assert(pairs_view(before).last() == (x.0, x.1@));
            assert(pairs_view(tmp@.push(x)).reverse() =~= seq![(x.0, x.1@)] + pairs_view(tmp@).reverse());
        }
        tmp.push(x);
        assert(target =~= insert_by_ordinal(pairs_view(s@), ev) + pairs_view(tmp@).reverse());
    }
    proof {
        if pairs_view(s@).len() > 0 {
            assert(pairs_view(s@).last() == (s@.last().0, s@.last().1@));
        }
        assert(insert_by_ordinal(pairs_view(s@), ev) =~= pairs_view(s@).push(ev));
    }
    let ghost before_push = s@;
    s.push(e);
    assert(pairs_view(s@) =~= pairs_view(before_push).push(ev));
    while tmp.len() > 0
        invariant
            target == pairs_view(s@) + pairs_view(tmp@).reverse(),
        decreases tmp@.len(),
    {
        let ghost before = tmp@;
        let ghost sb = s@;
        let x = tmp.pop().unwrap();
        proof {
            assert(before =~= tmp@.push(x));
            assert(pairs_view(before).reverse() =~= seq![(x.0, x.1@)] + pairs_view(tmp@).reverse());
        }
        s.push(x);
        assert(pairs_view(s@) =~= pairs_view(sb).push((x.0, x.1@)));
        assert(target =~= pairs_view(s@) + pairs_view(tmp@).reverse());
    }
    assert(pairs_view(tmp@).reverse() =~= Seq::<(i64, Seq<u8>)>::empty());
    assert(pairs_view(s@) =~= target);
}

/// Reorder records by ordinal (stably) and say whether they were already in
/// order, that is, whether their ordinals never decreased.
pub fn reorder_records(records: Vec<(i64, Vec<u8>)>) -> (r: (bool, Vec<(i64, Vec<u8>)>))
    ensures
        r.0 == pairs_monotonic(pairs_view(records@)),
        pairs_view(r.1@) == sort_by_ordinal(pairs_view(records@)),
{
    let n = records.len();
    let mut monotonic = true;
    let mut i: usize = 1;
    while i < n
        invariant
            n == records@.len(),
            1 <= i,
            i <= n || i == 1,
            monotonic == (forall|j: int| 0 <= j < i - 1 ==> (#[trigger] records@[j]).0 <= records@[j + 1].0),
        decreases n - i,
    {
        if records[i - 1].0 > records[i].0 {
            monotonic = false;
        }
        i = i + 1;
    }
    assert(monotonic == pairs_monotonic(pairs_view(records@))) by {
        let pv = pairs_view(records@);
        if monotonic {
            assert forall|j: int| 0 <= j < pv.len() - 1 implies (#[trigger] pv[j]).0 <= pv[j + 1].0 by {
                assert(records@[j].0 <= records@[j + 1].0);
            }
        } else {
            let j = choose|j: int| 0 <= j < i - 1 && !((#[trigger] records@[j]).0 <= records@[j + 1].0);
            assert(pv[j].0 == records@[j].0);
            assert(pv[j + 1].0 == records@[j + 1].0);
        }
    }
    let ghost rv = pairs_view(records@);
    assert(rv.len() == n);
    let mut out: Vec<(i64, Vec<u8>)> = Vec::new();
    let mut rest = records;
    // take the records from the back, remembering their input order
    let mut taken: Vec<(i64, Vec<u8>)> = Vec::new();
    while rest.len() > 0
        invariant
            pairs_view(rest@) + pairs_view(taken@).reverse() == rv,
        decreases rest@.len(),
    {
        let ghost before = rest@;
        let x = rest.pop().unwrap();
        proof {
            assert(pairs_view(before) =~= pairs_view(rest@).push((x.0, x.1@)));
            assert(pairs_view(taken@.push(x)).reverse() =~= seq![(x.0, x.1@)] + pairs_view(taken@).reverse());
        }
        taken.push(x);
        assert(pairs_view(rest@) + pairs_view(taken@).reverse() =~= rv);
    }
    assert(pairs_view(taken@).reverse() =~= rv);
    let mut k: usize = 0;
    proof {
        assert(rv.take(0) =~= Seq::<(i64, Seq<u8>)>::empty());
    }
    while taken.len() > 0
        invariant
            pairs_view(taken@).reverse() == rv.skip(k as int),
            k + taken@.len() == rv.len(),
            rv.len() <= usize::MAX,
            pairs_view(out@) == sort_by_ordinal(rv.take(k as int)),
        decreases taken@.len(),
    {
        let ghost before = taken@;
        let x = taken.pop().unwrap();
        proof {
            assert(before =~= taken@.push(x));
            assert(pairs_view(before).reverse() =~= seq![(x.0, x.1@)] + pairs_view(taken@).reverse());
            assert(rv.skip(k as int)[0] == (x.0, x.1@));
            assert(rv[k as int] == (x.0, x.1@));
            assert(rv.take(k + 1).drop_last() =~= rv.take(k as int));
            assert(rv.take(k + 1).last() == rv[k as int]);
            assert(rv.skip(k + 1) =~= rv.skip(k as int).drop_first());
        }
        insert_pair(&mut out, x);
        k = k + 1;
        assert(pairs_view(taken@).reverse() =~= rv.skip(k as int));
    }
    assert(rv.take(rv.len() as int) =~= rv);
    (monotonic, out)
}


/// The last ordinal of a page as `slab info` counts it: `start + count - 1`.
pub open spec fn info_end(p: (i64, usize)) -> int {
    p.0 + p.1 - 1
}

/// Total records and the smallest start and largest end ordinal of the
/// pages `(start, count)`, as `slab info` reports them.
pub open spec fn info_fold(pages: Seq<(i64, usize)>) -> (int, Option<int>, Option<int>)
    decreases pages.len(),
{
    if pages.len() == 0 {
        (0, None, None)
    } else {
        let (t, mn, mx) = info_fold(pages.drop_last());
        let p = pages.last();
        (
            t + p.1,
            match mn {
                Some(m) if p.0 >= m => Some(m),
                _ => Some(p.0 as int),
            },
            match mx {
                Some(m) if info_end(p) <= m => Some(m),
                _ => Some(info_end(p)),
            },
        )
    }
}

/// Pages as a parsed file yields them: starts the footer can hold, counts
/// below 2^24, fewer than 2^24 pages.
pub open spec fn pages_in_range(pages: Seq<(i64, usize)>) -> bool {
    &&& pages.len() < 0x100_0000
    &&& forall|i: int| 0 <= i < pages.len() ==> ordinal_in_range((#[trigger] pages[i]).0 as int)
        && pages[i].1 < 0x100_0000
}

proof fn lemma_info_fold_bounds(pages: Seq<(i64, usize)>)
    requires
        pages_in_range(pages),
    ensures
        0 <= info_fold(pages).0 <= pages.len() * 0x100_0000,
        info_fold(pages).1 matches Some(m) ==> ordinal_in_range(m),
        info_fold(pages).2 matches Some(m) ==> -0x80_0000_0001 <= m <= 0x80_0000_0000 + 0x100_0000,
        pages.len() > 0 ==> info_fold(pages).1 is Some && info_fold(pages).2 is Some,
    decreases pages.len(),
{
    if pages.len() > 0 {
        let d = pages.drop_last();
        assert(pages_in_range(d)) by {
            assert forall|i: int| 0 <= i < d.len() implies ordinal_in_range((#[trigger] d[i]).0 as int)
                && d[i].1 < 0x100_0000 by {
                assert(pages[i] == d[i]);
            }
        }
        lemma_info_fold_bounds(d);
        assert(pages[pages.len() - 1] == pages.last());
    }
}

/// Total records, smallest start ordinal and largest end ordinal
/// (`start + count - 1`) of the pages `(start, count)`, as `slab info`
/// reports them.
pub fn info_summary(pages: &Vec<(i64, usize)>) -> (r: (u64, Option<i64>, Option<i64>))
    requires
        pages_in_range(pages@),
    ensures
        r.0 == info_fold(pages@).0,
        r.1 matches Some(m) ==> info_fold(pages@).1 == Some(m as int),
        r.1 is None ==> info_fold(pages@).1 is None,
        r.2 matches Some(m) ==> info_fold(pages@).2 == Some(m as int),
        r.2 is None ==> info_fold(pages@).2 is None,
{
    let mut total: u64 = 0;
    let mut min_ordinal: Option<i64> = None;
    let mut max_ordinal: Option<i64> = None;
    let n = pages.len();
    let mut i: usize = 0;
    while i < n
        invariant
            n == pages@.len(),
            pages_in_range(pages@),
            0 <= i <= n,
            total == info_fold(pages@.take(i as int)).0,
            min_ordinal matches Some(m) ==> info_fold(pages@.take(i as int)).1 == Some(m as int),
            min_ordinal is None ==> info_fold(pages@.take(i as int)).1 is None,
            max_ordinal matches Some(m) ==> info_fold(pages@.take(i as int)).2 == Some(m as int),
            max_ordinal is None ==> info_fold(pages@.take(i as int)).2 is None,
        decreases n - i,
    {
        let ghost t = pages@.take(i + 1);
        proof {
            assert(t.drop_last() =~= pages@.take(i as int));
            assert(t.last() == pages@[i as int]);
            assert(pages_in_range(pages@.take(i as int))) by {
                assert forall|j: int| 0 <= j < i implies ordinal_in_range((#[trigger] pages@.take(i as int)[j]).0 as int)
                    && pages@.take(i as int)[j].1 < 0x100_0000 by {
                    assert(pages@[j] == pages@.take(i as int)[j]);
                }
            }
            lemma_info_fold_bounds(pages@.take(i as int));
            assert(ordinal_in_range(pages@[i as int].0 as int) && pages@[i as int].1 < 0x100_0000);
        }
        let (start, count) = pages[i];
        total = total + count as u64;
        match min_ordinal {
            None => {
                min_ordinal = Some(start);
            },
            Some(m) => {
                if start < m {
                    min_ordinal = Some(start);
                }
            },
        }
        let end = start + count as i64 - 1;
        match max_ordinal {
            None => {
                max_ordinal = Some(end);
            },
            Some(m) => {
                if end > m {
                    max_ordinal = Some(end);
                }
            },
        }
        i = i + 1;
    }
    assert(pages@.take(n as int) =~= pages@);
    (total, min_ordinal, max_ordinal)
}

/// What `slab analyze` reports of the ordinals of a file's pages.
#[derive(Debug, Clone, Copy, PartialEq, Eq, Structural)]
pub struct OrdinalAnalysis {
    /// Total records.
    pub total_records: u64,
    /// Smallest start ordinal.
    pub min_ordinal: Option<i64>,
    /// Largest last ordinal (a page without records counts its start).
    pub max_ordinal: Option<i64>,
    /// No page starts at or before the last ordinal of the page before it.
    pub monotonic: bool,
    /// Some page starts more than one past the last ordinal before it.
    pub has_gaps: bool,
    /// The last ordinal of the latest page holding records.
    pub last_end: Option<i64>,
}

/// The last ordinal of a page as `slab analyze` counts it.
pub open spec fn analyze_end(p: (i64, usize)) -> int {
    if p.1 > 0 {
        p.0 + p.1 - 1
    } else {
        p.0 as int
    }
}

/// `slab analyze`'s account of one more page.
pub open spec fn analyze_step(a: OrdinalAnalysis, p: (i64, usize)) -> OrdinalAnalysis {
    OrdinalAnalysis {
        total_records: (a.total_records + p.1) as u64,
        min_ordinal: match a.min_ordinal {
            Some(m) if p.0 >= m => Some(m),
            _ => Some(p.0),
        },
        max_ordinal: match a.max_ordinal {
            Some(m) if analyze_end(p) <= m => Some(m),
            _ => Some(analyze_end(p) as i64),
        },
        monotonic: a.monotonic && !(a.last_end matches Some(e) && p.0 <= e),
        has_gaps: a.has_gaps || (a.last_end matches Some(e) && p.0 > e + 1),
        last_end: if p.1 > 0 {
            Some((p.0 + p.1 - 1) as i64)
        } else {
            a.last_end
        },
    }
}

/// `slab analyze`'s account of the pages `(start, count)`, in order.
pub open spec fn analyze_fold(pages: Seq<(i64, usize)>) -> OrdinalAnalysis
    decreases pages.len(),
{
    if pages.len() == 0 {
        OrdinalAnalysis {
            total_records: 0,
            min_ordinal: None,
            max_ordinal: None,
            monotonic: true,
            has_gaps: false,
            last_end: None,
        }
    } else {
        analyze_step(analyze_fold(pages.drop_last()), pages.last())
    }
}

proof fn lemma_analyze_fold_bounds(pages: Seq<(i64, usize)>)
    requires
        pages_in_range(pages),
    ensures
        analyze_fold(pages).total_records <= pages.len() * 0x100_0000,
        analyze_fold(pages).last_end matches Some(e) ==> -0x80_0000_0000 <= e <= 0x80_0000_0000 + 0x100_0000,
    decreases pages.len(),
{
    if pages.len() > 0 {
        let d = pages.drop_last();
        assert(pages_in_range(d)) by {
            assert forall|i: int| 0 <= i < d.len() implies ordinal_in_range((#[trigger] d[i]).0 as int)
                && d[i].1 < 0x100_0000 by {
                assert(pages[i] == d[i]);
            }
        }
        lemma_analyze_fold_bounds(d);
        assert(pages[pages.len() - 1] == pages.last());
    }
}

/// `slab analyze`'s account of the pages `(start, count)` of a file: total
/// records, ordinal range, whether the pages are in ordinal order and
/// whether ordinals are skipped between them.
pub fn analyze_pages(pages: &Vec<(i64, usize)>) -> (r: OrdinalAnalysis)
    requires
        pages_in_range(pages@),
    ensures
        r == analyze_fold(pages@),
{
    let mut a = OrdinalAnalysis {
        total_records: 0,
        min_ordinal: None,
        max_ordinal: None,
        monotonic: true,
        has_gaps: false,
        last_end: None,
    };
    let n = pages.len();
    let mut i: usize = 0;
    while i < n
        invariant
            n == pages@.len(),
            pages_in_range(pages@),
            0 <= i <= n,
            a == analyze_fold(pages@.take(i as int)),
        decreases n - i,
    {
        proof {
            assert(pages@.take(i + 1).drop_last() =~= pages@.take(i as int));
            assert(pages@.take(i + 1).last() == pages@[i as int]);
            assert(pages_in_range(pages@.take(i as int))) by {
                assert forall|j: int| 0 <= j < i implies ordinal_in_range((#[trigger] pages@.take(i as int)[j]).0 as int)
                    && pages@.take(i as int)[j].1 < 0x100_0000 by {
                    assert(pages@[j] == pages@.take(i as int)[j]);
                }
            }
            lemma_analyze_fold_bounds(pages@.take(i as int));
            assert(ordinal_in_range(pages@[i as int].0 as int) && pages@[i as int].1 < 0x100_0000);
        }
        let (start, count) = pages[i];
        let c = count as i64;
        let end: i64 = if count > 0 { start + c - 1 } else { start };
        let min_ordinal = match a.min_ordinal {
            Some(m) => if start < m { Some(start) } else { Some(m) },
            None => Some(start),
        };
        let max_ordinal = match a.max_ordinal {
            Some(m) => if end > m { Some(end) } else { Some(m) },
            None => Some(end),
        };
        let (monotonic, has_gaps) = match a.last_end {
            Some(e) => (a.monotonic && !(start <= e), a.has_gaps || start > e + 1),
            None => (a.monotonic, a.has_gaps),
        };
        let last_end = if count > 0 { Some(start + c - 1) } else { a.last_end };
        a = OrdinalAnalysis {
            total_records: a.total_records + count as u64,
            min_ordinal,
            max_ordinal,
            monotonic,
            has_gaps,
            last_end,
        };
        i = i + 1;
    }
    assert(pages@.take(n as int) =~= pages@);
    a
}

/// The bytes a page of `record_count` records holding `data_bytes` bytes of
/// data uses: header, data, offsets and footer.
pub fn page_used_bytes(data_bytes: usize, record_count: usize) -> (r: usize)
    requires
        data_bytes + 4 * (record_count + 1) + 24 <= usize::MAX,
    ensures
        r == data_bytes + 4 * (record_count + 1) + 24,
{
    data_bytes + 8 + (record_count + 1) * 4 + 16
}

/// What the bytes of a file's records look like.
#[derive(Debug, Clone, Copy, PartialEq, Eq, Structural)]
pub enum ContentKind {
    /// Some byte is not ASCII and some byte is zero.
    BinaryCstrings,
    /// Some byte is not ASCII, none is zero.
    Binary,
    /// All ASCII with a newline somewhere.
    TextLines,
    /// All ASCII without newlines.
    Text,
}

/// Some byte of the first 100 records satisfies `f`.
pub open spec fn sample_has(records: Seq<Seq<u8>>, f: spec_fn(u8) -> bool) -> bool {
    exists|i: int, j: int|
        0 <= i < records.len() && i < 100 && 0 <= j < records[i].len() && #[trigger] f(records[i][j])
}

/// The kind of content the first 100 records show.
pub open spec fn content_of(records: Seq<Seq<u8>>) -> ContentKind {
    if sample_has(records, |b: u8| b >= 128) {
        if sample_has(records, |b: u8| b == 0) {
            ContentKind::BinaryCstrings
        } else {
            ContentKind::Binary
        }
    } else if sample_has(records, |b: u8| b == 10) {
        ContentKind::TextLines
    } else {
        ContentKind::Text
    }
}

/// Detect the content kind from the bytes of the first 100 records.
pub fn detect_content(records: &Vec<Vec<u8>>) -> (r: ContentKind)
    ensures
        r == content_of(crate::page::records_view(records@)),
{
    let ghost rv = crate::page::records_view(records@);
    let ghost f_na = |b: u8| b >= 128;
    let ghost f_null = |b: u8| b == 0;
    let ghost f_nl = |b: u8| b == 10;
    let mut non_ascii = false;
    let mut has_null = false;
    let mut has_newline = false;
    let n = records.len();
    let mut i: usize = 0;
    while i < n && i < 100
        invariant
            n == records@.len(),
            rv == crate::page::records_view(records@),
            f_na == (|b: u8| b >= 128),
            f_null == (|b: u8| b == 0),
            f_nl == (|b: u8| b == 10),
            0 <= i <= n,
            i <= 100,
            non_ascii == exists|a: int, j: int| 0 <= a < i && 0 <= j < rv[a].len() && #[trigger] f_na(rv[a][j]),
            has_null == exists|a: int, j: int| 0 <= a < i && 0 <= j < rv[a].len() && #[trigger] f_null(rv[a][j]),
            has_newline == exists|a: int, j: int| 0 <= a < i && 0 <= j < rv[a].len() && #[trigger] f_nl(rv[a][j]),
        decreases n - i,
    {
        let rec = &records[i];
        assert(rec@ == rv[i as int]);
        let m = rec.len();
        let mut j: usize = 0;
        let ghost na0 = non_ascii;
        let ghost nu0 = has_null;
        let ghost nl0 = has_newline;
        while j < m
            invariant
                m == rec@.len(),
                rec@ == rv[i as int],
                f_na == (|b: u8| b >= 128),
                f_null == (|b: u8| b == 0),
                f_nl == (|b: u8| b == 10),
                0 <= j <= m,
                non_ascii == (na0 || exists|k: int| 0 <= k < j && #[trigger] f_na(rec@[k])),
                has_null == (nu0 || exists|k: int| 0 <= k < j && #[trigger] f_null(rec@[k])),
                has_newline == (nl0 || exists|k: int| 0 <= k < j && #[trigger] f_nl(rec@[k])),
            decreases m - j,
        {
            let b = rec[j];
            if b >= 128 {
                non_ascii = true;
                assert(f_na(rec@[j as int]));
            }
            if b == 0 {
                has_null = true;
                assert(f_null(rec@[j as int]));
            }
            if b == 10 {
                has_newline = true;
                assert(f_nl(rec@[j as int]));
            }
            j = j + 1;
        }
        proof {
            assert(non_ascii == exists|a: int, k: int| 0 <= a < i + 1 && 0 <= k < rv[a].len() && #[trigger] f_na(rv[a][k])) by {
                if non_ascii && !na0 {
                    let k = choose|k: int| 0 <= k < j && #[trigger] f_na(rec@[k]);
                    assert(f_na(rv[i as int][k]));
                }
            }
            assert(has_null == exists|a: int, k: int| 0 <= a < i + 1 && 0 <= k < rv[a].len() && #[trigger] f_null(rv[a][k])) by {
                if has_null && !nu0 {
                    let k = choose|k: int| 0 <= k < j && #[trigger] f_null(rec@[k]);
                    assert(f_null(rv[i as int][k]));
                }
            }
            assert(has_newline == exists|a: int, k: int| 0 <= a < i + 1 && 0 <= k < rv[a].len() && #[trigger] f_nl(rv[a][k])) by {
                if has_newline && !nl0 {
                    let k = choose|k: int| 0 <= k < j && #[trigger] f_nl(rec@[k]);
                    assert(f_nl(rv[i as int][k]));
                }
            }
        }
        i = i + 1;
    }
    proof {
        assert(non_ascii == sample_has(rv, f_na));
        assert(has_null == sample_has(rv, f_null));
        assert(has_newline == sample_has(rv, f_nl));
    }
    if non_ascii {
        if has_null {
            ContentKind::BinaryCstrings
        } else {
            ContentKind::Binary
        }
    } else if has_newline {
        ContentKind::TextLines
    } else {
        ContentKind::Text
    }
}


/// Export output format.
#[derive(Debug, Clone, Copy, PartialEq, Eq, Structural)]
pub enum ExportFormat {
    /// Newline-delimited text.
    Text,
    /// Null-terminated binary.
    Cstrings,
    /// Slabtastic slab format.
    Slab,
}

/// The extension (the part after the last dot of the file name) that
/// `std::path::Path::extension` finds in a path.
pub uninterp spec fn path_extension_of(path: Seq<char>) -> Option<Seq<char>>;

/// The extension of a path, as `std::path::Path::extension` finds it.
#[verifier::external_body]
fn path_extension(path: &str) -> (r: Option<String>)
    ensures
        match r {
            Some(e) => path_extension_of(path@) == Some(e@),
            None => path_extension_of(path@) is None,
        },
{
    std::path::Path::new(path).extension().and_then(|e| e.to_str()).map(|e| e.to_string())
}

/// The format an output path asks for: `Slab` for a `.slab` extension,
/// `Text` otherwise.
pub fn detect_format_from_extension(path: &str) -> (r: ExportFormat)
    ensures
        r == if path_extension_of(path@) == Some("slab"@) {
            ExportFormat::Slab
        } else {
            ExportFormat::Text
        },
{
    match path_extension(path) {
        Some(ext) => {
            let slab = "slab".to_owned();
            if ext == slab {
                ExportFormat::Slab
            } else {
                ExportFormat::Text
            }
        },
        None => ExportFormat::Text,
    }
}

/// The settings of an export of a slab file's records.
pub struct ExportConfig<'a> {
    /// Input slab file path.
    pub file: &'a str,
    /// Output path; `None` writes to standard output.
    pub output: Option<&'a str>,
    /// Force text (newline-delimited) format.
    pub format_text: bool,
    /// Force cstrings (null-terminated) format.
    pub format_cstrings: bool,
    /// Force slab format.
    pub format_slab: bool,
    /// Write records exactly as stored, without adding a missing newline or
    /// null terminator.
    pub as_is: bool,
    /// Preferred page size for slab output.
    pub preferred_page_size: Option<u32>,
    /// Minimum page size for slab output.
    pub min_page_size: Option<u32>,
    /// Whether to align pages in slab output.
    pub page_alignment: bool,
    /// Whether to report progress.
    pub progress: bool,
    /// Optional namespace filter.
    pub namespace: &'a Option<String>,
}

/// The format an export writes: a forced format first (slab, then
/// cstrings, then text), else the output path's extension, else text.
pub fn export_format(cfg: &ExportConfig) -> (r: ExportFormat)
    ensures
        r == if cfg.format_slab {
            ExportFormat::Slab
        } else if cfg.format_cstrings {
            ExportFormat::Cstrings
        } else if cfg.format_text {
            ExportFormat::Text
        } else if let Some(out) = cfg.output {
            if path_extension_of(out@) == Some("slab"@) {
                ExportFormat::Slab
            } else {
                ExportFormat::Text
            }
        } else {
            ExportFormat::Text
        },
{
    if cfg.format_slab {
        ExportFormat::Slab
    } else if cfg.format_cstrings {
        ExportFormat::Cstrings
    } else if cfg.format_text {
        ExportFormat::Text
    } else {
        match cfg.output {
            Some(out) => detect_format_from_extension(out),
            None => ExportFormat::Text,
        }
    }
}

/// The bytes exported for a record: the record, then `terminator` unless
/// the record is written as is or already ends with it.
pub open spec fn framed(data: Seq<u8>, terminator: u8, as_is: bool) -> Seq<u8> {
    if !as_is && !(data.len() > 0 && data.last() == terminator) {
        data.push(terminator)
    } else {
        data
    }
}

/// The bytes exported for a record (see `framed`).
pub fn frame_record(data: &[u8], terminator: u8, as_is: bool) -> (r: Vec<u8>)
    ensures
        r@ == framed(data@, terminator, as_is),
{
    let mut out = vstd::slice::slice_to_vec(data);
    let n = data.len();
    if !as_is && !(n > 0 && data[n - 1] == terminator) {
        out.push(terminator);
    }
    out
}

/// The whole text or cstrings export of `records`: each record's data,
/// framed, one after another in the given order (ordinals are not written).
pub fn export_records(records: &Vec<(i64, Vec<u8>)>, terminator: u8, as_is: bool) -> (r: Vec<u8>)
    ensures
        r@ == concat(Seq::new(records@.len(), |i: int| framed(records@[i].1@, terminator, as_is))),
{
    let ghost pieces = Seq::new(records@.len(), |i: int| framed(records@[i].1@, terminator, as_is));
    let mut out: Vec<u8> = Vec::new();
    let n = records.len();
    let mut i: usize = 0;
    proof {
        assert(pieces.take(0) =~= Seq::<Seq<u8>>::empty());
    }
    while i < n
        invariant
            n == records@.len(),
            0 <= i <= n,
            pieces == Seq::new(records@.len(), |i: int| framed(records@[i].1@, terminator, as_is)),
            out@ == concat(pieces.take(i as int)),
        decreases n - i,
    {
        let f = frame_record(records[i].1.as_slice(), terminator, as_is);
        crate::page::push_bytes(&mut out, f.as_slice());
        proof {
            crate::page::lemma_concat_step(pieces, i as int);
        }
        i = i + 1;
    }
    proof {
        assert(pieces.take(n as int) =~= pieces);
    }
    out
}

/// `v` lists the pages met walking from offset 0 up to `end`: each page
/// begins where the one before it ends, reads, and is listed with its
/// type; the last one ends at `end`.
pub open spec fn walk_to(data: Seq<u8>, v: Seq<(u64, PageType)>, end: int) -> bool {
    &&& v.len() == 0 ==> end == 0
    &&& v.len() > 0 ==> v[0].0 == 0
    &&& forall|i: int| 0 <= i < v.len() ==> page_at_ok(data, (#[trigger] v[i]).0 as int)
        && v[i].1 == decode_footer(tail_footer(page_bytes_at(data, v[i].0 as int))).page_type
    &&& forall|i: int| 0 <= i < v.len() - 1 ==> (#[trigger] v[i + 1]).0 == v[i].0 + stored_size(
        data,
        v[i].0 as int,
    )
    &&& forall|i: int| 0 <= i < v.len() - 1 ==> (#[trigger] v[i]).0 + stored_size(data, v[i].0 as int)
        < data.len()
    &&& v.len() > 0 ==> v.last().0 + stored_size(data, v.last().0 as int) == end
}

/// The walk over a file's pages from offset 0: each page begins where the
/// one before it ends, every page reads, and the last one ends the file.
pub open spec fn forward_walk(data: Seq<u8>, v: Seq<(u64, PageType)>) -> bool {
    &&& (v.len() == 0 <==> data.len() == 0)
    &&& walk_to(data, v, data.len() as int)
}

/// Walk a file's pages forward from offset 0 without its index, following
/// each page's header, and list each page's offset and type. The first page
/// met that cannot be read stops the walk with its error.
pub fn forward_pages(data: &[u8]) -> (r: Result<Vec<(u64, PageType)>, SlabError>)
    ensures
        match r {
            Ok(v) => forward_walk(data@, v@),
            Err(e) => exists|v: Seq<(u64, PageType)>, off: int|
                walk_to(data@, v, off) && 0 <= off < data@.len() && !page_at_ok(data@, off)
                    && page_read_error(data@, off, e),
        },
{
    let len = data.len() as u64;
    let mut out: Vec<(u64, PageType)> = Vec::new();
    let mut offset: u64 = 0;
    while offset < len
        invariant
            len == data@.len(),
            offset <= len,
            walk_to(data@, out@, offset as int),
        decreases len - offset,
    {
        let page = match read_page_at(data, offset) {
            Ok(p) => p,
            Err(e) => {
                assert(walk_to(data@, out@, offset as int));
                return Err(e);
            },
        };
        proof {
            assert(page.footer.page_size as int == stored_size(data@, offset as int));
        }
        let ghost before = out@;
        out.push((offset, page.footer.page_type));
        proof {
            assert(out@[out@.len() - 1] == (offset, page.footer.page_type));
            assert forall|i: int| 0 <= i < out@.len() implies page_at_ok(data@, (#[trigger] out@[i]).0 as int)
                && out@[i].1 == decode_footer(tail_footer(page_bytes_at(data@, out@[i].0 as int))).page_type by {
                if i < before.len() {
                    assert(out@[i] == before[i]);
                }
            }
            assert forall|i: int| 0 <= i < out@.len() - 1 implies (#[trigger] out@[i]).0 + stored_size(
                data@,
                out@[i].0 as int,
            ) < len by {
                assert(out@[i] == before[i]);
                if i < before.len() - 1 {
                } else {
                    assert(before.last() == before[i]);
                }
            }
            assert forall|i: int| 0 <= i < out@.len() - 1 implies (#[trigger] out@[i + 1]).0 == out@[i].0
                + stored_size(data@, out@[i].0 as int) by {
                assert(out@[i] == before[i]);
                if i < before.len() - 1 {
                    assert(out@[i + 1] == before[i + 1]);
                } else {
                    assert(before.last() == before[i]);
                }
            }
        }
        offset = offset + page.footer.page_size as u64;
    }
    Ok(out)
}

/// What `slab info` lists for a data page.
#[derive(Debug, Clone, Copy, PartialEq, Eq, Structural)]
pub struct PageRow {
    /// The page's first ordinal, from its footer.
    pub start_ordinal: i64,
    /// How many records the page holds.
    pub record_count: usize,
    /// The page's size in bytes, from its footer.
    pub page_size: u32,
    /// Where the page begins in the file.
    pub file_offset: i64,
}

/// The row of the page that entry `e` points at.
pub open spec fn row_of(data: Seq<u8>, e: PageEntry) -> PageRow {
    let off = e.file_offset as int;
    PageRow {
        start_ordinal: page_start_at(data, off) as i64,
        record_count: page_records_at(data, off).len() as usize,
        page_size: decode_footer(tail_footer(page_bytes_at(data, off))).page_size,
        file_offset: e.file_offset,
    }
}

/// Read every data page in the order of the index and list its start
/// ordinal, record count, size and offset, as `slab info` does. A page that
/// cannot be read stops the listing with its error.
pub fn page_rows(reader: &SlabReader) -> (r: Result<Vec<PageRow>, SlabError>)
    ensures
        match r {
            Ok(rows) => {
                &&& rows@.len() == file_entries(reader.bytes()).len()
                &&& forall|k: int|
                    0 <= k < rows@.len() ==> #[trigger] page_at_ok(
                        reader.bytes(),
                        file_entries(reader.bytes())[k].file_offset as int,
                    )
                &&& forall|k: int|
                    0 <= k < rows@.len() ==> #[trigger] rows@[k] == row_of(
                        reader.bytes(),
                        file_entries(reader.bytes())[k],
                    )
            },
            Err(e) => exists|k: int|
                0 <= k < file_entries(reader.bytes()).len() && (forall|j: int|
                    0 <= j < k ==> #[trigger] page_at_ok(
                        reader.bytes(),
                        file_entries(reader.bytes())[j].file_offset as int,
                    )) && !page_at_ok(reader.bytes(), file_entries(reader.bytes())[k].file_offset as int)
                    && page_read_error(
                    reader.bytes(),
                    file_entries(reader.bytes())[k].file_offset as int,
                    e,
                ),
        },
{
    let entries = reader.page_entries();
    let ghost data = reader.bytes();
    let ghost es = entries@;
    let n = entries.len();
    let mut rows: Vec<PageRow> = Vec::new();
    let mut i: usize = 0;
    while i < n
        invariant
            n == es.len(),
            es == entries@,
            es == file_entries(data),
            data == reader.bytes(),
            0 <= i <= n,
            rows@.len() == i,
            forall|k: int| 0 <= k < i ==> #[trigger] page_at_ok(data, es[k].file_offset as int),
            forall|k: int| 0 <= k < i ==> #[trigger] rows@[k] == row_of(data, es[k]),
        decreases n - i,
    {
        let page = match reader.read_data_page(&entries[i]) {
            Ok(p) => p,
            Err(e) => {
                return Err(e);
            },
        };
        let row = PageRow {
            start_ordinal: page.start_ordinal(),
            record_count: page.record_count(),
            page_size: page.footer.page_size,
            file_offset: entries[i].file_offset,
        };
        proof {
            assert(page.rec_view().len() == page.records@.len());
            assert(row == row_of(data, es[i as int]));
        }
        rows.push(row);
        i = i + 1;
    }
    Ok(rows)
}

/// The first `\n` at or after `i`, or the end of `data`.
pub open spec fn next_newline(data: Seq<u8>, i: int) -> int
    decreases data.len() - i,
{
    if i >= data.len() {
        data.len() as int
    } else if data[i] == 10 {
        i
    } else {
        next_newline(data, i + 1)
    }
}

/// A line without its `\n` and, before it, its `\r`.
pub open spec fn strip_line(line: Seq<u8>) -> Seq<u8> {
    if line.len() > 0 && line.last() == 10 {
        let l = line.drop_last();
        if l.len() > 0 && l.last() == 13 {
            l.drop_last()
        } else {
            l
        }
    } else {
        line
    }
}

/// The lines of `data` from position `i` on, as `BufRead::lines` splits
/// them: at each `\n`, which is dropped together with a `\r` just before
/// it; a last line without `\n` is kept as it is, and nothing follows a
/// final `\n`.
pub open spec fn lines_from(data: Seq<u8>, i: int) -> Seq<Seq<u8>>
    decreases data.len() - i,
{
    if i < 0 || i >= data.len() {
        Seq::empty()
    } else {
        let j = next_newline(data, i);
        if j < data.len() {
            proof {
                lemma_next_newline_bound(data, i);
            }
            seq![strip_line(data.subrange(i, j + 1))] + lines_from(data, j + 1)
        } else {
            seq![data.subrange(i, data.len() as int)]
        }
    }
}

/// `next_newline` lies between `i` and the end.
pub proof fn lemma_next_newline_bound(data: Seq<u8>, i: int)
    requires
        0 <= i <= data.len(),
    ensures
        i <= next_newline(data, i) <= data.len(),
        next_newline(data, i) < data.len() ==> data[next_newline(data, i)] == 10,
    decreases data.len() - i,
{
    if i < data.len() && data[i] != 10 {
        lemma_next_newline_bound(data, i + 1);
    }
}

/// Without a `\n` between `i` and `j`, both find the same next one.
proof fn lemma_next_newline_skip(data: Seq<u8>, i: int, j: int)
    requires
        0 <= i <= j <= data.len(),
        forall|k: int| i <= k < j ==> data[k] != 10,
    ensures
        next_newline(data, i) == next_newline(data, j),
    decreases j - i,
{
    if i < j {
        lemma_next_newline_skip(data, i + 1, j);
    }
}

/// Split `data` into lines as `BufRead::lines` does (see `lines_from`).
pub fn split_lines(data: &[u8]) -> (r: Vec<Vec<u8>>)
    ensures
        crate::page::records_view(r@) == lines_from(data@, 0),
{
    let n = data.len();
    let mut out: Vec<Vec<u8>> = Vec::new();
    let mut start: usize = 0;
    let mut j: usize = 0;
    while j < n
        invariant
            n == data@.len(),
            0 <= start <= j <= n,
            forall|k: int| start <= k < j ==> data@[k] != 10,
            lines_from(data@, 0) == crate::page::records_view(out@) + lines_from(data@, start as int),
        decreases n - j,
    {
        if data[j] == 10 {
            proof {
                lemma_next_newline_skip(data@, start as int, j as int);
                lemma_next_newline_bound(data@, start as int);
            }
            let mut line = vstd::slice::slice_to_vec(vstd::slice::slice_subrange(data, start, j));
            if line.len() > 0 && line[line.len() - 1] == 13 {
                line.pop();
            }
            proof {
                let full = data@.subrange(start as int, j + 1);
                assert(full.drop_last() =~= data@.subrange(start as int, j as int));
                assert(line@ == strip_line(full));
                assert(crate::page::records_view(out@.push(line)) =~= crate::page::records_view(out@).push(line@));
            }
            out.push(line);
            start = j + 1;
        }
        j = j + 1;
    }
    if start < n {
        proof {
            lemma_next_newline_skip(data@, start as int, n as int);
        }
        let line = vstd::slice::slice_to_vec(vstd::slice::slice_subrange(data, start, n));
        proof {
            assert(crate::page::records_view(out@.push(line)) =~= crate::page::records_view(out@).push(line@));
        }
        out.push(line);
    }
    proof {
        assert(crate::page::records_view(out@) =~= lines_from(data@, 0));
    }
    out
}

/// Page `j` is the latest of `pages` that holds records.
pub open spec fn latest_with_records(pages: Seq<(i64, usize)>, j: int) -> bool {
    &&& 0 <= j < pages.len()
    &&& pages[j].1 > 0
    &&& forall|k: int| j < k < pages.len() ==> #[trigger] pages[k].1 == 0
}

/// The last ordinal the analysis remembers is that of the latest page
/// holding records, and there is none when no page holds records.
pub proof fn lemma_fold_last_end(pages: Seq<(i64, usize)>)
    requires
        pages_in_range(pages),
    ensures
        analyze_fold(pages).last_end is None ==> forall|k: int|
            0 <= k < pages.len() ==> #[trigger] pages[k].1 == 0,
        forall|j: int|
            #[trigger] latest_with_records(pages, j) ==> analyze_fold(pages).last_end == Some(
                (pages[j].0 + pages[j].1 - 1) as i64,
            ) && (pages[j].0 + pages[j].1 - 1) as i64 == pages[j].0 + pages[j].1 - 1,
    decreases pages.len(),
{
    if pages.len() > 0 {
        let d = pages.drop_last();
        let n = pages.len() - 1;
        assert(pages_in_range(d)) by {
            assert forall|i: int| 0 <= i < d.len() implies ordinal_in_range((#[trigger] d[i]).0 as int)
                && d[i].1 < 0x100_0000 by {
                assert(pages[i] == d[i]);
            }
        }
        lemma_fold_last_end(d);
        assert(pages.last() == pages[n]);
        assert(ordinal_in_range(pages[n].0 as int));
        if analyze_fold(pages).last_end is None {
            assert forall|k: int| 0 <= k < pages.len() implies #[trigger] pages[k].1 == 0 by {
                if k < n {
                    assert(d[k] == pages[k]);
                }
            }
        }
        assert forall|j: int| #[trigger] latest_with_records(pages, j) implies analyze_fold(
            pages,
        ).last_end == Some((pages[j].0 + pages[j].1 - 1) as i64) && (pages[j].0 + pages[j].1
            - 1) as i64 == pages[j].0 + pages[j].1 - 1 by {
            assert(ordinal_in_range(pages[j].0 as int) && pages[j].1 < 0x100_0000);
            if j < n {
                assert(pages[n].1 == 0);
                assert(d[j] == pages[j]);
                assert(latest_with_records(d, j)) by {
                    assert forall|k: int| j < k < d.len() implies #[trigger] d[k].1 == 0 by {
                        assert(d[k] == pages[k]);
                        assert(pages[k].1 == 0);
                    }
                }
            }
        }
    }
}

/// A page met after some page held records is out of order when it starts
/// at or before the last ordinal of the latest such page, and leaves a gap
/// when it starts more than one past it: `monotonic` holds exactly when no
/// page is out of order, and `has_gaps` exactly when some page leaves a
/// gap. In particular pages that each start where the one before ends
/// (its start plus its record count) show no gap and are in order.
pub proof fn lemma_ordinal_structure(pages: Seq<(i64, usize)>)
    requires
        pages_in_range(pages),
    ensures
        analyze_fold(pages).has_gaps <==> exists|i: int, j: int|
            0 <= i < pages.len() && #[trigger] latest_with_records(pages.take(i), j)
                && pages[i].0 > pages[j].0 + pages[j].1,
        analyze_fold(pages).monotonic <==> !exists|i: int, j: int|
            0 <= i < pages.len() && #[trigger] latest_with_records(pages.take(i), j)
                && pages[i].0 < pages[j].0 + pages[j].1,
    decreases pages.len(),
{
    if pages.len() > 0 {
        let d = pages.drop_last();
        let n = pages.len() - 1;
        assert(pages_in_range(d)) by {
            assert forall|i: int| 0 <= i < d.len() implies ordinal_in_range((#[trigger] d[i]).0 as int)
                && d[i].1 < 0x100_0000 by {
                assert(pages[i] == d[i]);
            }
        }
        lemma_ordinal_structure(d);
        lemma_fold_last_end(d);
        assert(pages.last() == pages[n]);
        assert(d =~= pages.take(n));
        let a = analyze_fold(d);
        // pairs ending before the last page are those of `d`
        assert forall|i: int, j: int| 0 <= i < n implies (latest_with_records(pages.take(i), j)
            <==> latest_with_records(d.take(i), j)) && pages[i] == d[i] by {
            assert(pages.take(i) =~= d.take(i));
        }
        // the last page's pair, if any
        if a.last_end is None {
            assert forall|j: int| !latest_with_records(pages.take(n), j) by {
                if latest_with_records(pages.take(n), j) {
                    assert(d[j] == pages.take(n)[j]);
                }
            }
        } else {
            let e = a.last_end->0;
            // some page of `d` holds records; the latest one is the pair's partner
            let jj = choose|j: int| latest_with_records(d, j);
            assert(exists|j: int| latest_with_records(d, j)) by {
                lemma_latest_exists(d);
            }
            assert(latest_with_records(pages.take(n), jj));
            assert(e == d[jj].0 + d[jj].1 - 1);
            assert forall|j: int| latest_with_records(pages.take(n), j) implies j == jj by {
                assert(latest_with_records(d, j));
                if j < jj {
                    assert(d[jj].1 == 0);
                } else if jj < j {
                    assert(d[j].1 == 0);
                }
            }
        }
        assert(analyze_fold(pages).has_gaps <==> exists|i: int, j: int|
            0 <= i < pages.len() && #[trigger] latest_with_records(pages.take(i), j)
                && pages[i].0 > pages[j].0 + pages[j].1) by {
            if analyze_fold(pages).has_gaps {
                if a.has_gaps {
                    let (i, j) = choose|i: int, j: int|
                        0 <= i < d.len() && #[trigger] latest_with_records(d.take(i), j)
                            && d[i].0 > d[j].0 + d[j].1;
                    assert(latest_with_records(pages.take(i), j));
                } else {
                    let jj = choose|j: int| latest_with_records(d, j);
                    assert(latest_with_records(pages.take(n), jj));
                }
            } else {
                assert forall|i: int, j: int| 0 <= i < pages.len() && #[trigger] latest_with_records(
                    pages.take(i),
                    j,
                ) implies !(pages[i].0 > pages[j].0 + pages[j].1) by {
                    if i < n {
                        assert(latest_with_records(d.take(i), j));
                    }
                }
            }
        }
        assert(analyze_fold(pages).monotonic <==> !exists|i: int, j: int|
            0 <= i < pages.len() && #[trigger] latest_with_records(pages.take(i), j)
                && pages[i].0 < pages[j].0 + pages[j].1) by {
            if !analyze_fold(pages).monotonic {
                if !a.monotonic {
                    let (i, j) = choose|i: int, j: int|
                        0 <= i < d.len() && #[trigger] latest_with_records(d.take(i), j)
                            && d[i].0 < d[j].0 + d[j].1;
                    assert(latest_with_records(pages.take(i), j));
                } else {
                    let jj = choose|j: int| latest_with_records(d, j);
                    assert(latest_with_records(pages.take(n), jj));
                }
            } else {
                assert forall|i: int, j: int| 0 <= i < pages.len() && #[trigger] latest_with_records(
                    pages.take(i),
                    j,
                ) implies !(pages[i].0 < pages[j].0 + pages[j].1) by {
                    if i < n {
                        assert(latest_with_records(d.take(i), j));
                    }
                }
            }
        }
    }
}

/// When the analysis remembers a last ordinal, some page holds records and
/// one of them is the latest.
proof fn lemma_latest_exists(pages: Seq<(i64, usize)>)
    requires
        pages_in_range(pages),
        analyze_fold(pages).last_end is Some,
    ensures
        exists|j: int| latest_with_records(pages, j),
    decreases pages.len(),
{
    lemma_fold_last_end(pages);
    let n = pages.len() - 1;
    if pages[n].1 > 0 {
        assert(latest_with_records(pages, n));
    } else {
        let d = pages.drop_last();
        assert(pages_in_range(d)) by {
            assert forall|i: int| 0 <= i < d.len() implies ordinal_in_range((#[trigger] d[i]).0 as int)
                && d[i].1 < 0x100_0000 by {
                assert(pages[i] == d[i]);
            }
        }
        assert(pages.last() == pages[n]);
        assert(analyze_fold(d).last_end is Some);
        lemma_latest_exists(d);
        let j = choose|j: int| latest_with_records(d, j);
        assert(d[j] == pages[j]);
        assert forall|k2: int| j < k2 < pages.len() implies #[trigger] pages[k2].1 == 0 by {
            if k2 < n {
                assert(d[k2] == pages[k2]);
            }
        }
        assert(latest_with_records(pages, j));
    }
}

/// Pages that each start where the one before ends (its start plus its
/// record count) are in ordinal order and leave no gap.
pub proof fn lemma_contiguous_pages(pages: Seq<(i64, usize)>)
    requires
        pages_in_range(pages),
        forall|i: int| 0 < i < pages.len() ==> #[trigger] pages[i].0 == pages[i - 1].0 + pages[i - 1].1,
    ensures
        !analyze_fold(pages).has_gaps,
        analyze_fold(pages).monotonic,
{
    lemma_ordinal_structure(pages);
    assert forall|i: int, j: int| 0 <= i < pages.len() && #[trigger] latest_with_records(
        pages.take(i),
        j,
    ) implies pages[i].0 == pages[j].0 + pages[j].1 by {
        lemma_start_after(pages, i, j, i);
    }
}

/// Past page `j`, with no records in the pages between, page `k` starts
/// where page `j` ends.
proof fn lemma_start_after(pages: Seq<(i64, usize)>, i: int, j: int, k: int)
    requires
        forall|x: int| 0 < x < pages.len() ==> #[trigger] pages[x].0 == pages[x - 1].0 + pages[x - 1].1,
        0 <= i < pages.len(),
        latest_with_records(pages.take(i), j),
        j < k <= i,
    ensures
        pages[k].0 == pages[j].0 + pages[j].1,
    decreases k - j,
{
    assert(pages[k].0 == pages[k - 1].0 + pages[k - 1].1);
    if k - 1 > j {
        lemma_start_after(pages, i, j, k - 1);
        assert(pages.take(i)[k - 1] == pages[k - 1]);
    }
}

/// The number of records of `pages`, together.
pub open spec fn records_in_pages(pages: Seq<(i64, usize)>) -> int
    decreases pages.len(),
{
    if pages.len() == 0 {
        0
    } else {
        records_in_pages(pages.drop_last()) + pages.last().1
    }
}

/// The analysis counts every record of every page; its smallest ordinal is
/// the smallest page start and its largest the greatest last ordinal of a
/// page (the start, for a page without records); both are absent exactly
/// when there is no page.
pub proof fn lemma_ordinal_totals(pages: Seq<(i64, usize)>)
    requires
        pages_in_range(pages),
    ensures
        analyze_fold(pages).total_records == records_in_pages(pages),
        pages.len() == 0 ==> analyze_fold(pages).min_ordinal is None
            && analyze_fold(pages).max_ordinal is None,
        pages.len() > 0 ==> (analyze_fold(pages).min_ordinal matches Some(m) && (exists|i: int|
            0 <= i < pages.len() && #[trigger] pages[i].0 == m) && (forall|i: int|
            0 <= i < pages.len() ==> m <= #[trigger] pages[i].0)),
        pages.len() > 0 ==> (analyze_fold(pages).max_ordinal matches Some(m) && (exists|i: int|
            0 <= i < pages.len() && m == (if #[trigger] pages[i].1 > 0 {
                pages[i].0 + pages[i].1 - 1
            } else {
                pages[i].0 as int
            })) && (forall|i: int|
            0 <= i < pages.len() ==> (if #[trigger] pages[i].1 > 0 {
                pages[i].0 + pages[i].1 - 1
            } else {
                pages[i].0 as int
            }) <= m)),
    decreases pages.len(),
{
    if pages.len() > 0 {
        let d = pages.drop_last();
        let n = pages.len() - 1;
        assert(pages_in_range(d)) by {
            assert forall|i: int| 0 <= i < d.len() implies ordinal_in_range((#[trigger] d[i]).0 as int)
                && d[i].1 < 0x100_0000 by {
                assert(pages[i] == d[i]);
            }
        }
        lemma_ordinal_totals(d);
        lemma_analyze_fold_bounds(d);
        assert(pages.last() == pages[n]);
        assert(ordinal_in_range(pages[n].0 as int) && pages[n].1 < 0x100_0000);
        assert forall|i: int| 0 <= i < n implies pages[i] == #[trigger] d[i] by {}
        let a = analyze_fold(pages);
        if n > 0 {
            let m = a.min_ordinal->0;
            if m != pages[n].0 {
                let i = choose|i: int| 0 <= i < d.len() && #[trigger] d[i].0 == m;
                assert(pages[i].0 == m);
            }
            assert forall|i: int| 0 <= i < pages.len() implies m <= #[trigger] pages[i].0 by {
                if i < n {
                    assert(d[i] == pages[i]);
                }
            }
            let mx = a.max_ordinal->0;
            let last_n = if pages[n].1 > 0 { pages[n].0 + pages[n].1 - 1 } else { pages[n].0 as int };
            if mx != last_n {
                let i = choose|i: int| 0 <= i < d.len() && mx == (if #[trigger] d[i].1 > 0 {
                    d[i].0 + d[i].1 - 1
                } else {
                    d[i].0 as int
                });
                assert(pages[i] == d[i]);
                assert(0 <= i < pages.len() && mx == (if pages[i].1 > 0 {
                    pages[i].0 + pages[i].1 - 1
                } else {
                    pages[i].0 as int
                }));
            } else {
                assert(0 <= n < pages.len() && mx == (if pages[n].1 > 0 {
                    pages[n].0 + pages[n].1 - 1
                } else {
                    pages[n].0 as int
                }));
            }
            assert forall|i: int| 0 <= i < pages.len() implies (if #[trigger] pages[i].1 > 0 {
                pages[i].0 + pages[i].1 - 1
            } else {
                pages[i].0 as int
            }) <= mx by {
                if i < n {
                    assert(d[i] == pages[i]);
                }
            }
        } else {
            assert(pages[0].0 == a.min_ordinal->0);
        }
    }
}

/// Byte `j` of record `i` is among those content detection looks at: the
/// bytes of the first 100 records.
pub open spec fn sampled(records: Seq<Seq<u8>>, i: int, j: int) -> bool {
    0 <= i < records.len() && i < 100 && 0 <= j < records[i].len()
}

/// Content detection: a sample with a byte of 128 or more is binary,
/// whatever newlines it holds, and null-terminated binary exactly when some
/// sampled byte is zero; an all-ASCII sample is newline-delimited text
/// exactly when some sampled byte is a newline, and plain text otherwise.
pub proof fn lemma_content_kind(records: Seq<Seq<u8>>)
    ensures
        (exists|i: int, j: int| #[trigger] sampled(records, i, j) && records[i][j] >= 128) ==> (
        content_of(records) == ContentKind::Binary || content_of(records)
            == ContentKind::BinaryCstrings),
        content_of(records) == ContentKind::BinaryCstrings <==> (exists|i: int, j: int|
            #[trigger] sampled(records, i, j) && records[i][j] >= 128) && (exists|i: int, j: int|
            #[trigger] sampled(records, i, j) && records[i][j] == 0),
        content_of(records) == ContentKind::Binary <==> (exists|i: int, j: int|
            #[trigger] sampled(records, i, j) && records[i][j] >= 128) && (forall|i: int, j: int|
            #[trigger] sampled(records, i, j) ==> records[i][j] != 0),
        content_of(records) == ContentKind::TextLines <==> (forall|i: int, j: int|
            #[trigger] sampled(records, i, j) ==> records[i][j] < 128) && (exists|i: int, j: int|
            #[trigger] sampled(records, i, j) && records[i][j] == 10),
        content_of(records) == ContentKind::Text <==> (forall|i: int, j: int|
            #[trigger] sampled(records, i, j) ==> records[i][j] < 128 && records[i][j] != 10),
{
    let na = exists|i: int, j: int| #[trigger] sampled(records, i, j) && records[i][j] >= 128;
    let nu = exists|i: int, j: int| #[trigger] sampled(records, i, j) && records[i][j] == 0;
    let nl = exists|i: int, j: int| #[trigger] sampled(records, i, j) && records[i][j] == 10;
    assert(sample_has(records, |b: u8| b >= 128) <==> na) by {
        if na {
            let (i, j) = choose|i: int, j: int| #[trigger] sampled(records, i, j) && records[i][j] >= 128;
            assert((|b: u8| b >= 128)(records[i][j]));
        }
        if sample_has(records, |b: u8| b >= 128) {
            let (i, j) = choose|i: int, j: int|
                0 <= i < records.len() && i < 100 && 0 <= j < records[i].len() && (|b: u8| b >= 128)(#[trigger] records[i][j]);
            assert(sampled(records, i, j));
        }
    }
    assert(sample_has(records, |b: u8| b == 0) <==> nu) by {
        if nu {
            let (i, j) = choose|i: int, j: int| #[trigger] sampled(records, i, j) && records[i][j] == 0;
            assert((|b: u8| b == 0)(records[i][j]));
        }
        if sample_has(records, |b: u8| b == 0) {
            let (i, j) = choose|i: int, j: int|
                0 <= i < records.len() && i < 100 && 0 <= j < records[i].len() && (|b: u8| b == 0)(#[trigger] records[i][j]);
            assert(sampled(records, i, j));
        }
    }
    assert(sample_has(records, |b: u8| b == 10) <==> nl) by {
        if nl {
            let (i, j) = choose|i: int, j: int| #[trigger] sampled(records, i, j) && records[i][j] == 10;
            assert((|b: u8| b == 10)(records[i][j]));
        }
        if sample_has(records, |b: u8| b == 10) {
            let (i, j) = choose|i: int, j: int|
                0 <= i < records.len() && i < 100 && 0 <= j < records[i].len() && (|b: u8| b == 10)(#[trigger] records[i][j]);
            assert(sampled(records, i, j));
        }
    }
}

/// Framing an exported record: written as is, the record is unchanged;
/// otherwise the framed record begins with the record, always ends with the
/// terminator, and adds exactly one byte, the terminator, unless the
/// record's last byte already is the terminator, when it adds nothing.
/// Only the last byte decides: a terminator elsewhere in the record does
/// not count.
pub proof fn lemma_framing(data: Seq<u8>, terminator: u8, as_is: bool)
    ensures
        as_is ==> framed(data, terminator, as_is) == data,
        !as_is ==> framed(data, terminator, as_is).len() > 0 && framed(data, terminator, as_is).last()
            == terminator,
        !as_is ==> data.is_prefix_of(framed(data, terminator, as_is)),
        !as_is && (data.len() == 0 || data[data.len() - 1] != terminator) ==> framed(
            data,
            terminator,
            as_is,
        ).len() == data.len() + 1,
        !as_is && data.len() > 0 && data[data.len() - 1] == terminator ==> framed(
            data,
            terminator,
            as_is,
        ).len() == data.len(),
{
    if !as_is {
        let f = framed(data, terminator, as_is);
        assert(f.subrange(0, data.len() as int) =~= data);
    }
}

/// A text or cstrings export of at least one record (not written as is)
/// ends with the terminator, so the next record never runs on.
pub proof fn lemma_export_ends_with_terminator(records: Seq<(i64, Vec<u8>)>, terminator: u8)
    requires
        records.len() > 0,
    ensures
        concat(Seq::new(records.len(), |i: int| framed(records[i].1@, terminator, false))).len() > 0,
        concat(Seq::new(records.len(), |i: int| framed(records[i].1@, terminator, false))).last()
            == terminator,
{
    let pieces = Seq::new(records.len(), |i: int| framed(records[i].1@, terminator, false));
    let n = pieces.len() - 1;
    assert(pieces.drop_last().push(pieces[n]) =~= pieces);
    crate::writer::lemma_concat_push(pieces.drop_last(), pieces[n]);
    lemma_framing(records[n].1@, terminator, false);
}

/// `slab info` counts every record of every page; its smallest ordinal is
/// the smallest page start and its largest is the greatest
/// `start + count - 1` of a page; both are absent exactly when there is no
/// page.
pub proof fn lemma_info_totals(pages: Seq<(i64, usize)>)
    requires
        pages_in_range(pages),
    ensures
        info_fold(pages).0 == records_in_pages(pages),
        pages.len() == 0 ==> info_fold(pages).1 is None && info_fold(pages).2 is None,
        pages.len() > 0 ==> (info_fold(pages).1 matches Some(m) && (exists|i: int|
            0 <= i < pages.len() && #[trigger] pages[i].0 == m) && (forall|i: int|
            0 <= i < pages.len() ==> m <= #[trigger] pages[i].0)),
        pages.len() > 0 ==> (info_fold(pages).2 matches Some(m) && (exists|i: int|
            0 <= i < pages.len() && m == #[trigger] pages[i].0 + pages[i].1 - 1) && (forall|i: int|
            0 <= i < pages.len() ==> #[trigger] pages[i].0 + pages[i].1 - 1 <= m)),
    decreases pages.len(),
{
    if pages.len() > 0 {
        let d = pages.drop_last();
        let n = pages.len() - 1;
        assert(pages_in_range(d)) by {
            assert forall|i: int| 0 <= i < d.len() implies ordinal_in_range((#[trigger] d[i]).0 as int)
                && d[i].1 < 0x100_0000 by {
                assert(pages[i] == d[i]);
            }
        }
        lemma_info_totals(d);
        assert(pages.last() == pages[n]);
        assert forall|i: int| 0 <= i < n implies pages[i] == #[trigger] d[i] by {}
        let a = info_fold(pages);
        if n > 0 {
            let m = a.1->0;
            if m != pages[n].0 {
                let i = choose|i: int| 0 <= i < d.len() && #[trigger] d[i].0 == m;
                assert(pages[i].0 == m);
            }
            assert forall|i: int| 0 <= i < pages.len() implies m <= #[trigger] pages[i].0 by {
                if i < n {
                    assert(d[i] == pages[i]);
                }
            }
            let mx = a.2->0;
            if mx != pages[n].0 + pages[n].1 - 1 {
                let i = choose|i: int| 0 <= i < d.len() && mx == #[trigger] d[i].0 + d[i].1 - 1;
                assert(pages[i] == d[i]);
                assert(0 <= i < pages.len() && mx == pages[i].0 + pages[i].1 - 1);
            } else {
                assert(0 <= n < pages.len() && mx == pages[n].0 + pages[n].1 - 1);
            }
            assert forall|i: int| 0 <= i < pages.len() implies #[trigger] pages[i].0 + pages[i].1 - 1
                <= mx by {
                if i < n {
                    assert(d[i] == pages[i]);
                }
            }
        } else {
            assert(pages[0].0 == a.1->0);
            assert(0 <= 0 < pages.len() && a.2->0 == pages[0].0 + pages[0].1 - 1);
        }
    }
}

} // verus!
