//! The line-wrap algorithm: split one row into visual segments at a given
//! wrap width, using adapter-supplied prefix advances as the measurement
//! capability.

use vstd::prelude::*;
use vstd::utf8::*;

use crate::edit::char_at_spec;
use crate::text::{char_len_at, is_ascii_ws, lemma_boundary_char, lemma_step_boundary,
    lemma_suffix_first_scalar, spec_is_ascii_ws};

verus! {

broadcast use vstd::seq_lib::group_seq_lib_default, vstd::seq::group_seq_axioms;

/// How a visual segment ends: at whitespace, forced mid-token, or at a
/// hyphenation point (currently never produced).
#[derive(Debug, Clone, Copy, PartialEq, Eq, Structural)]
pub enum WrapType {
    SoftWrap,
    HardWrap,
    Hyphenated,
}

/// One wrapped segment of a row: a byte range within the row and how it
/// ends.
#[derive(Debug, Clone, Copy, PartialEq, Eq, Structural)]
pub struct VisualLine {
    pub start: usize,
    pub end: usize,
    pub wrap_type: WrapType,
}

impl VisualLine {
    pub fn new(start: usize, end: usize, wrap_type: WrapType) -> (r: Self)
        ensures
            r.start == start,
            r.end == end,
            r.wrap_type == wrap_type,
    {
        Self { start, end, wrap_type }
    }

    /// Byte length of the segment.
    pub fn len(&self) -> (n: usize)
        requires
            self.start <= self.end,
        ensures
            n == self.end - self.start,
    {
        self.end - self.start
    }
}

/// Subtraction on advances, saturating at zero so that the wrap is total
/// whatever measurements the adapter supplies.
pub open spec fn adv_diff(a: u64, b: u64) -> int {
    if a >= b {
        a - b
    } else {
        0
    }
}

/// First offset at or past `b` that is not ASCII whitespace (or the end).
pub open spec fn skip_ascii_ws(line: Seq<u8>, b: int) -> int
    decreases line.len() - b,
    when 0 <= b <= line.len()
{
    if b >= line.len() {
        b
    } else if spec_is_ascii_ws(line[b]) {
        skip_ascii_ws(line, b + 1)
    } else {
        b
    }
}

pub proof fn lemma_skip_ascii_ws(line: Seq<u8>, b: int)
    requires
        valid_utf8(line),
        0 <= b <= line.len(),
        is_char_boundary(line, b),
    ensures
        b <= skip_ascii_ws(line, b) <= line.len(),
        is_char_boundary(line, skip_ascii_ws(line, b)),
    decreases line.len() - b,
{
    if b < line.len() && spec_is_ascii_ws(line[b]) {
        lemma_suffix_first_scalar(line, b);
        let suffix = line.subrange(b, line.len() as int);
        assert(suffix[0] == line[b]);
        assert(length_of_first_scalar(suffix) == 1);
        lemma_step_boundary(line, b, 1);
        lemma_skip_ascii_ws(line, b + 1);
    }
}

/// The segments the wrap scan produces from position `i` with current
/// segment start `cs` and most recent whitespace boundary `lw`.
pub open spec fn wrap_from(
    line: Seq<u8>,
    adv: Seq<u64>,
    width: u64,
    i: int,
    cs: int,
    lw: Option<int>,
) -> Seq<(int, int, WrapType)>
    decreases line.len() - i,
    when 0 <= i <= line.len() && valid_utf8(line) && is_char_boundary(line, i) && 0 <= cs
        <= line.len() && is_char_boundary(line, cs) && adv.len() == line.len() + 1
    via wrap_from_decreases
{
    if i >= line.len() {
        if cs < line.len() {
            seq![(cs, line.len() as int, WrapType::SoftWrap)]
        } else {
            Seq::empty()
        }
    } else {
        let n = length_of_first_scalar(line.subrange(i, line.len() as int));
        let next = i + n;
        let ch = char_at_spec(line, i);
        let lw1 = if crate::trusted::whitespace(ch) {
            Some(next)
        } else {
            lw
        };
        let rel = adv_diff(adv[next], adv[cs]);
        if rel > width {
            if lw1 matches Some(b) && b > cs && b <= line.len() && is_char_boundary(line, b) {
                let e = skip_ascii_ws(line, lw1->Some_0);
                seq![(cs, e, WrapType::SoftWrap)] + wrap_from(line, adv, width, next, e, None)
            } else if i > cs {
                seq![(cs, i, WrapType::HardWrap)] + wrap_from(line, adv, width, next, i, None)
            } else {
                wrap_from(line, adv, width, next, cs, None)
            }
        } else {
            wrap_from(line, adv, width, next, cs, lw1)
        }
    }
}

#[via_fn]
proof fn wrap_from_decreases(line: Seq<u8>, adv: Seq<u64>, width: u64, i: int, cs: int, lw: Option<
    int,
>) {
    if i < line.len() {
        lemma_suffix_first_scalar(line, i);
        lemma_step_boundary(line, i, length_of_first_scalar(line.subrange(i, line.len() as int)));
        let ch = char_at_spec(line, i);
        let n = length_of_first_scalar(line.subrange(i, line.len() as int));
        if crate::trusted::whitespace(ch) {
            lemma_skip_ascii_ws(line, i + n);
        }
        if lw matches Some(b) && 0 <= b <= line.len() && is_char_boundary(line, b) {
            lemma_skip_ascii_ws(line, lw->Some_0);
        }
    }
}

/// The visual segments of a row at the given wrap width: the whole scan from
/// the start, with the empty row yielding a single empty segment.
pub open spec fn spec_wrap(line: Seq<u8>, adv: Seq<u64>, width: u64) -> Seq<(int, int, WrapType)> {
    if line.len() == 0 {
        seq![(0int, 0int, WrapType::SoftWrap)]
    } else {
        wrap_from(line, adv, width, 0, 0, None)
    }
}

/// Segments form a chain: each begins where the previous one ended, the
/// first at `from`, the last at `to`, every boundary a character boundary,
/// and every segment non-empty.
pub open spec fn seg_chain(
    segs: Seq<(int, int, WrapType)>,
    from: int,
    to: int,
    line: Seq<u8>,
) -> bool
    decreases segs.len(),
{
    if segs.len() == 0 {
        from == to
    } else {
        &&& segs[0].0 == from
        &&& from < segs[0].1 <= to
        &&& is_char_boundary(line, from)
        &&& is_char_boundary(line, segs[0].1)
        &&& seg_chain(segs.drop_first(), segs[0].1, to, line)
    }
}

/// The wrap scan partitions the rest of the row.
pub proof fn lemma_wrap_from_chain(
    line: Seq<u8>,
    adv: Seq<u64>,
    width: u64,
    i: int,
    cs: int,
    lw: Option<int>,
)
    requires
        valid_utf8(line),
        adv.len() == line.len() + 1,
        0 <= i <= line.len(),
        is_char_boundary(line, i),
        0 <= cs <= line.len(),
        is_char_boundary(line, cs),
    ensures
        seg_chain(wrap_from(line, adv, width, i, cs, lw), cs, line.len() as int, line),
    decreases line.len() - i,
{
    lemma_boundary_char(line, line.len() as int);
    if i >= line.len() {
        if cs < line.len() {
            let whole = seq![(cs, line.len() as int, WrapType::SoftWrap)];
            assert(whole.drop_first() =~= Seq::<(int, int, WrapType)>::empty());
            assert(seg_chain(whole.drop_first(), line.len() as int, line.len() as int, line));
            assert(seg_chain(whole, cs, line.len() as int, line));
        }
    } else {
        lemma_suffix_first_scalar(line, i);
        let n = length_of_first_scalar(line.subrange(i, line.len() as int));
        lemma_step_boundary(line, i, n);
        let next = i + n;
        let ch = char_at_spec(line, i);
        let lw1 = if crate::trusted::whitespace(ch) {
            Some(next)
        } else {
            lw
        };
        let rel = adv_diff(adv[next], adv[cs]);
        let result = wrap_from(line, adv, width, i, cs, lw);
        if rel > width {
            if lw1 matches Some(b) && b > cs && b <= line.len() && is_char_boundary(line, b) {
                let e = skip_ascii_ws(line, lw1->Some_0);
                lemma_skip_ascii_ws(line, lw1->Some_0);
                lemma_wrap_from_chain(line, adv, width, next, e, None);
                let tail = wrap_from(line, adv, width, next, e, None);
                let whole = seq![(cs, e, WrapType::SoftWrap)] + tail;
                assert(result == whole);
                assert(whole.drop_first() =~= tail);
                assert(whole[0] == (cs, e, WrapType::SoftWrap));
                assert(seg_chain(whole, cs, line.len() as int, line));
            } else if i > cs {
                lemma_wrap_from_chain(line, adv, width, next, i, None);
                let tail = wrap_from(line, adv, width, next, i, None);
                let whole = seq![(cs, i, WrapType::HardWrap)] + tail;
                assert(result == whole);
                assert(whole.drop_first() =~= tail);
                assert(whole[0] == (cs, i, WrapType::HardWrap));
                assert(seg_chain(whole, cs, line.len() as int, line));
            } else {
                lemma_wrap_from_chain(line, adv, width, next, cs, None);
                assert(result == wrap_from(line, adv, width, next, cs, None));
            }
        } else {
            lemma_wrap_from_chain(line, adv, width, next, cs, lw1);
            assert(result == wrap_from(line, adv, width, next, cs, lw1));
        }
    }
}

/// Wrap coverage law: for any row and wrap width, the segments' byte ranges
/// are contiguous, non-overlapping, and exactly cover the row, starting and
/// ending on character boundaries.
pub proof fn lemma_wrap_partition(line: Seq<u8>, adv: Seq<u64>, width: u64)
    requires
        valid_utf8(line),
        adv.len() == line.len() + 1,
    ensures
        ({
            let segs = spec_wrap(line, adv, width);
            &&& segs.len() >= 1
            &&& segs[0].0 == 0
            &&& segs[segs.len() - 1].1 == line.len()
            &&& forall|k: int| 0 <= k < segs.len() ==> (#[trigger] segs[k]).0 <= segs[k].1
            &&& forall|k: int|
                0 <= k < segs.len() - 1 ==> (#[trigger] segs[k]).1 == segs[k + 1].0
            &&& forall|k: int|
                0 <= k < segs.len() ==> is_char_boundary(line, (#[trigger] segs[k]).0)
                    && is_char_boundary(line, segs[k].1)
            &&& line.len() > 0 ==> forall|k: int|
                0 <= k < segs.len() ==> (#[trigger] segs[k]).0 < segs[k].1
        }),
{
    let segs = spec_wrap(line, adv, width);
    if line.len() == 0 {
        assert(is_char_boundary(line, 0));
    } else {
        lemma_boundary_char(line, 0);
        lemma_wrap_from_chain(line, adv, width, 0, 0, None);
        lemma_chain_props(segs, 0, line.len() as int, line);
        assert(segs.len() >= 1) by {
            if segs.len() == 0 {
                assert(seg_chain(segs, 0, line.len() as int, line));
            }
        }
    }
}

/// The quantified consequences of a segment chain.
pub proof fn lemma_chain_props(segs: Seq<(int, int, WrapType)>, from: int, to: int, line: Seq<u8>)
    requires
        seg_chain(segs, from, to, line),
    ensures
        segs.len() == 0 ==> from == to,
        segs.len() >= 1 ==> segs[0].0 == from && segs[segs.len() - 1].1 == to,
        forall|k: int| 0 <= k < segs.len() ==> (#[trigger] segs[k]).0 < segs[k].1,
        forall|k: int| 0 <= k < segs.len() - 1 ==> (#[trigger] segs[k]).1 == segs[k + 1].0,
        forall|k: int|
            0 <= k < segs.len() ==> is_char_boundary(line, (#[trigger] segs[k]).0)
                && is_char_boundary(line, segs[k].1),
        forall|k: int| 0 <= k < segs.len() ==> from <= (#[trigger] segs[k]).0 && segs[k].1 <= to,
    decreases segs.len(),
{
    if segs.len() > 0 {
        lemma_chain_props(segs.drop_first(), segs[0].1, to, line);
        assert forall|k: int| 0 <= k < segs.len() implies (#[trigger] segs[k]).0 < segs[k].1 by {
            if k > 0 {
                assert(segs.drop_first()[k - 1] == segs[k]);
            }
        }
        assert forall|k: int|
            0 <= k < segs.len() - 1 implies (#[trigger] segs[k]).1 == segs[k + 1].0 by {
            if k > 0 {
                assert(segs.drop_first()[k - 1] == segs[k]);
                assert(segs.drop_first()[k] == segs[k + 1]);
            } else {
                assert(segs.drop_first()[0] == segs[1]);
            }
        }
        assert forall|k: int|
            0 <= k < segs.len() implies is_char_boundary(line, (#[trigger] segs[k]).0)
            && is_char_boundary(line, segs[k].1) by {
            if k > 0 {
                assert(segs.drop_first()[k - 1] == segs[k]);
            }
        }
        assert forall|k: int|
            0 <= k < segs.len() implies from <= (#[trigger] segs[k]).0 && segs[k].1 <= to by {
            if k > 0 {
                assert(segs.drop_first()[k - 1] == segs[k]);
            }
        }
    }
}

/// Compute the visual segments of one row. `adv` gives the measured
/// horizontal advance from the row start to every byte offset (one entry per
/// offset, including the end); the scan closes a soft segment at the latest
/// whitespace boundary once the advance since the segment start exceeds the
/// wrap width, falls back to a hard break mid-token, and always emits a
/// trailing soft segment.
pub fn compute_visual_lines(line: &Vec<u8>, adv: &Vec<u64>, width: u64) -> (r: Vec<VisualLine>)
    requires
        valid_utf8(line@),
        adv@.len() == line@.len() + 1,
    ensures
        seg_ranges_kinds(r@) == spec_wrap(line@, adv@, width),
        r@.len() >= 1,
{
    let mut r: Vec<VisualLine> = Vec::new();
    if line.len() == 0 {
        r.push(VisualLine::new(0, 0, WrapType::SoftWrap));
        proof {
            assert(seg_ranges_kinds(r@) =~= spec_wrap(line@, adv@, width));
        }
        return r;
    }
    let ghost target = spec_wrap(line@, adv@, width);
    let mut i: usize = 0;
    let mut cs: usize = 0;
    let mut lw: Option<usize> = None;
    proof {
        lemma_boundary_char(line@, 0);
        assert(seg_ranges_kinds(r@) =~= Seq::<(int, int, WrapType)>::empty());
        assert(target == seg_ranges_kinds(r@) + wrap_from(line@, adv@, width, 0, 0, None));
    }
    while i < line.len()
        invariant
            valid_utf8(line@),
            adv@.len() == line@.len() + 1,
            0 <= i <= line.len(),
            is_char_boundary(line@, i as int),
            0 <= cs <= line.len(),
            is_char_boundary(line@, cs as int),
            lw matches Some(b) ==> 0 <= b <= line.len() && is_char_boundary(line@, b as int),
            target == seg_ranges_kinds(r@) + wrap_from(
                line@,
                adv@,
                width,
                i as int,
                cs as int,
                match lw {
                    Some(b) => Some(b as int),
                    None => None,
                },
            ),
        decreases line.len() - i,
    {
        let ghost lw0: Option<int> = match lw {
            Some(b) => Some(b as int),
            None => None,
        };
        let n = char_len_at(line, i);
        let next = i + n;
        let ch = crate::text::char_at(line, i);
        if crate::trusted::char_is_whitespace(ch) {
            lw = Some(next);
        }
        let ghost lw1: Option<int> = match lw {
            Some(b) => Some(b as int),
            None => None,
        };
        let rel = if adv[next] >= adv[cs] {
            adv[next] - adv[cs]
        } else {
            0
        };
        proof {
            assert(rel as int == adv_diff(adv@[next as int], adv@[cs as int]));
        }
        let ghost r0 = r@;
        let ghost cs0 = cs as int;
        if rel > width {
            let mut wrapped = false;
            match lw {
                Some(b) => {
                    if b > cs {
                        let mut e = b;
                        proof {
                            lemma_skip_ascii_ws(line@, b as int);
                        }
                        while e < line.len() && is_ascii_ws(line[e])
                            invariant
                                valid_utf8(line@),
                                0 <= e <= line.len(),
                                skip_ascii_ws(line@, b as int) == skip_ascii_ws(line@, e as int),
                            decreases line.len() - e,
                        {
                            e += 1;
                        }
                        proof {
                            assert(skip_ascii_ws(line@, e as int) == e as int);
                            lemma_skip_ascii_ws(line@, b as int);
                        }
                        let seg = VisualLine::new(cs, e, WrapType::SoftWrap);
                        r.push(seg);
                        proof {
                            lemma_seg_ranges_kinds_push(r0, seg);
                        }
                        cs = e;
                        lw = None;
                        wrapped = true;
                    }
                },
                None => {},
            }
            if !wrapped {
                if i > cs {
                    let seg = VisualLine::new(cs, i, WrapType::HardWrap);
                    r.push(seg);
                    proof {
                        lemma_seg_ranges_kinds_push(r0, seg);
                    }
                    cs = i;
                }
                lw = None;
            }
        }
        i = next;
        proof {
            let lw2: Option<int> = match lw {
                Some(b) => Some(b as int),
                None => None,
            };
            assert(seg_ranges_kinds(r0) + wrap_from(line@, adv@, width, i as int - n, cs0, lw0)
                == seg_ranges_kinds(r@) + wrap_from(line@, adv@, width, i as int, cs as int, lw2))
                by {
                lemma_suffix_first_scalar(line@, i as int - n);
                lemma_step_boundary(line@, i as int - n, n as int);
                if seg_ranges_kinds(r@).len() > seg_ranges_kinds(r0).len() {
                    assert(seg_ranges_kinds(r@) =~= seg_ranges_kinds(r0).push(
                        seg_ranges_kinds(r@).last(),
                    ));
                }
            }
        }
    }
    if cs < line.len() {
        r.push(VisualLine::new(cs, line.len(), WrapType::SoftWrap));
    }
    proof {
        assert(seg_ranges_kinds(r@) =~= target);
        lemma_wrap_partition(line@, adv@, width);
    }
    r
}

/// The (start, end, kind) triples of a segment vector.
pub open spec fn seg_ranges_kinds(segs: Seq<VisualLine>) -> Seq<(int, int, WrapType)> {
    Seq::new(segs.len(), |i: int| (segs[i].start as int, segs[i].end as int, segs[i].wrap_type))
}

proof fn lemma_seg_ranges_kinds_push(v: Seq<VisualLine>, x: VisualLine)
    ensures
        seg_ranges_kinds(v.push(x)) =~= seg_ranges_kinds(v).push(
            (x.start as int, x.end as int, x.wrap_type),
        ),
{
    assert forall|k: int| 0 <= k < v.len() + 1 implies seg_ranges_kinds(v.push(x))[k]
        == seg_ranges_kinds(v).push((x.start as int, x.end as int, x.wrap_type))[k] by {
        if k < v.len() {
            assert(v.push(x)[k] == v[k]);
        } else {
            assert(v.push(x)[k] == x);
        }
    }
}

} // verus!
