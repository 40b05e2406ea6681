//! Offset-correction tables for character filters.
//!
//! A character filter mutates the text buffer before tokenization and returns
//! a diff table over the new buffer: a strictly increasing sequence of
//! `(offset, cumulative_diff)` pairs.  Looking up a filtered-text index yields
//! the corresponding index in the filter's input text: the index plus the diff
//! of the last entry at or before it, or the index itself when no entry
//! precedes it.

pub mod regex;
pub mod unicode_normalize;

use vstd::prelude::*;

verus! {

/// A diff table is well-formed when both columns have the same length and the
/// offsets are strictly increasing.
pub open spec fn table_wf(offsets: Seq<usize>, diffs: Seq<i64>) -> bool {
    &&& offsets.len() == diffs.len()
    &&& forall|i: int, j: int| 0 <= i < j < offsets.len() ==> offsets[i] < offsets[j]
}

/// The cumulative diff that applies to position `pos`: the diff of the last
/// entry whose offset is at or before `pos`, or 0 when no entry precedes it.
pub open spec fn diff_at(offsets: Seq<usize>, diffs: Seq<i64>, pos: int) -> int
    decreases offsets.len(),
{
    if offsets.len() == 0 {
        0
    } else if offsets.last() <= pos {
        diffs.last() as int
    } else {
        diff_at(offsets.drop_last(), diffs.drop_last(), pos)
    }
}

/// The corrected position for filtered-text position `pos`.
pub open spec fn corrected(offsets: Seq<usize>, diffs: Seq<i64>, pos: int) -> int {
    pos + diff_at(offsets, diffs, pos)
}

/// Every position of the filtered text, its end included, maps back through
/// the table to a position of the input text.
pub open spec fn table_maps_back(
    offsets: Seq<usize>,
    diffs: Seq<i64>,
    new_len: int,
    old_len: int,
) -> bool {
    forall|q: int| 0 <= q <= new_len ==> 0 <= #[trigger] corrected(offsets, diffs, q) <= old_len
}

/// The cumulative diff recorded so far: the last entry of the diff column, or
/// 0 for an empty table.
pub open spec fn cum_of(dif: Seq<int>) -> int {
    if dif.len() == 0 {
        0
    } else {
        dif.last()
    }
}

/// One `(offset, diff)` pair added to a table held as mathematical integers,
/// replacing the diff of the last entry when the offset repeats.
pub open spec fn emit_pair(off: Seq<int>, dif: Seq<int>, offset: int, diff: int) -> (Seq<int>, Seq<
    int,
>) {
    if off.len() > 0 && off.last() == offset {
        (off, dif.update(dif.len() - 1, diff))
    } else {
        (off.push(offset), dif.push(diff))
    }
}

/// The pairs recorded for a span whose replacement is longer than the span
/// itself: one pair per extra byte, each one less than the previous
/// cumulative diff, so that every index inside the insertion maps back to the
/// same input boundary.
pub open spec fn emit_grow(off: Seq<int>, dif: Seq<int>, output_start: int, prev: int, g: nat) -> (
    Seq<int>,
    Seq<int>,
)
    decreases g,
{
    if g == 0 {
        (off, dif)
    } else {
        let t = emit_grow(off, dif, output_start, prev, (g - 1) as nat);
        emit_pair(t.0, t.1, output_start + g - 1, prev - g)
    }
}

/// The table entries recorded for one replaced span: the input occupies
/// `[match_start, match_end)` and is replaced by `rep_len` bytes.  A shrinking
/// replacement records one pair at the output boundary after the replacement;
/// a growing one records one pair per inserted byte; an equal-length one
/// records nothing.
pub open spec fn table_step(
    off: Seq<int>,
    dif: Seq<int>,
    match_start: int,
    match_end: int,
    rep_len: int,
) -> (Seq<int>, Seq<int>) {
    let prev = cum_of(dif);
    let target = match_end - match_start;
    if target > rep_len {
        emit_pair(off, dif, match_start + rep_len - prev, prev + (target - rep_len))
    } else if target < rep_len {
        emit_grow(off, dif, match_end - prev, prev, (rep_len - target) as nat)
    } else {
        (off, dif)
    }
}

/// The table recorded for a sorted sequence of replaced spans, starting from
/// an already recorded prefix.
pub open spec fn table_from(
    ranges: Seq<(usize, usize)>,
    rep_len: int,
    off: Seq<int>,
    dif: Seq<int>,
) -> (Seq<int>, Seq<int>)
    decreases ranges.len(),
{
    if ranges.len() == 0 {
        (off, dif)
    } else {
        let t = table_step(off, dif, ranges[0].0 as int, ranges[0].1 as int, rep_len);
        table_from(ranges.drop_first(), rep_len, t.0, t.1)
    }
}

/// The complete table recorded for a sorted sequence of replaced spans.
pub open spec fn table_of(ranges: Seq<(usize, usize)>, rep_len: int) -> (Seq<int>, Seq<int>) {
    table_from(ranges, rep_len, Seq::empty(), Seq::empty())
}

/// The two columns of a diff table seen as mathematical integers.
pub open spec fn int_offsets(offsets: Seq<usize>) -> Seq<int> {
    offsets.map_values(|o: usize| o as int)
}

/// See `int_offsets`.
pub open spec fn int_diffs(diffs: Seq<i64>) -> Seq<int> {
    diffs.map_values(|d: i64| d as int)
}

proof fn lemma_diff_at_push(offsets: Seq<usize>, diffs: Seq<i64>, o: usize, d: i64, pos: int)
    requires
        table_wf(offsets, diffs),
        offsets.len() > 0 ==> offsets.last() < o,
    ensures
        diff_at(offsets.push(o), diffs.push(d), pos) == if o <= pos {
            d as int
        } else {
            diff_at(offsets, diffs, pos)
        },
{
    assert(offsets.push(o).drop_last() =~= offsets);
    assert(diffs.push(d).drop_last() =~= diffs);
}

proof fn lemma_diff_at_replace(offsets: Seq<usize>, diffs: Seq<i64>, d: i64, pos: int)
    requires
        table_wf(offsets, diffs),
        offsets.len() > 0,
    ensures
        diff_at(offsets, diffs.update(diffs.len() - 1, d), pos) == if offsets.last() <= pos {
            d as int
        } else {
            diff_at(offsets, diffs, pos)
        },
{
    let diffs2 = diffs.update(diffs.len() - 1, d);
    assert(diffs2.last() == d);
    if offsets.last() <= pos {
    } else {
        assert(diffs2.drop_last() =~= diffs.drop_last());
        lemma_diff_at_skip_last(offsets, diffs, pos);
        lemma_diff_at_skip_last(offsets, diffs2, pos);
    }
}

proof fn lemma_diff_at_skip_last(offsets: Seq<usize>, diffs: Seq<i64>, pos: int)
    requires
        offsets.len() == diffs.len(),
        offsets.len() > 0,
        pos < offsets.last(),
    ensures
        diff_at(offsets, diffs, pos) == diff_at(offsets.drop_last(), diffs.drop_last(), pos),
{
}

/// Appends an `(offset, diff)` pair to a diff table.  When the table already
/// ends at the same offset, the diff of that entry is replaced instead, so a
/// table built through this function keeps strictly increasing offsets.
pub fn add_offset_diff(offsets: &mut Vec<usize>, diffs: &mut Vec<i64>, offset: usize, diff: i64)
    requires
        old(offsets)@.len() == old(diffs)@.len(),
    ensures
        final(offsets)@.len() == final(diffs)@.len(),
        old(offsets)@.len() > 0 && old(offsets)@.last() == offset ==> {
            &&& final(offsets)@ == old(offsets)@
            &&& final(diffs)@ == old(diffs)@.update(old(diffs)@.len() - 1, diff)
        },
        !(old(offsets)@.len() > 0 && old(offsets)@.last() == offset) ==> {
            &&& final(offsets)@ == old(offsets)@.push(offset)
            &&& final(diffs)@ == old(diffs)@.push(diff)
        },
{
    if offsets.len() > 0 {
        let last_offset = offsets[offsets.len() - 1];
        if last_offset == offset {
            // Replace the diff recorded for this offset.
            diffs.pop();
            diffs.push(diff);
            return ;
        }
    }
    offsets.push(offset);
    diffs.push(diff);
}

/// The state of a diff table while a filter walks its text: `in_pos` input
/// bytes have been consumed and `out_pos` output bytes produced.  The table
/// is well-formed, its entries do not run ahead of the output position, its
/// cumulative diff realigns the output position to the input position, and
/// every already produced output position maps back into the consumed input.
pub open spec fn building_wf(offsets: Seq<usize>, diffs: Seq<i64>, in_pos: int, out_pos: int) -> bool {
    &&& table_wf(offsets, diffs)
    &&& 0 <= in_pos
    &&& 0 <= out_pos
    &&& (offsets.len() > 0 ==> offsets.last() <= out_pos)
    &&& cum_of(int_diffs(diffs)) == in_pos - out_pos
    &&& forall|q: int| 0 <= q < out_pos ==> 0 <= q + #[trigger] diff_at(offsets, diffs, q) <= in_pos
}

/// Copying a span of input bytes to the output unchanged advances both
/// positions equally and keeps the table state well-formed.
pub(crate) proof fn lemma_building_advance(
    offsets: Seq<usize>,
    diffs: Seq<i64>,
    in_pos: int,
    out_pos: int,
    d: int,
)
    requires
        building_wf(offsets, diffs, in_pos, out_pos),
        d >= 0,
    ensures
        building_wf(offsets, diffs, in_pos + d, out_pos + d),
        forall|q: int| out_pos <= q ==> diff_at(offsets, diffs, q) == in_pos - out_pos,
{
    assert forall|q: int| out_pos <= q implies diff_at(offsets, diffs, q) == in_pos
        - out_pos by {
        if offsets.len() > 0 {
            assert(offsets.last() <= q);
        }
    }
}

/// Records the table entries for one replaced span, as `table_step` says.
///
/// The span `[input_offset - target_len, input_offset)` of the input is being
/// replaced by `rep_len` output bytes; everything between the previously
/// consumed position `in_pos` and the span was copied unchanged.  `in_cap`
/// bounds the input length and `out_cap` the output length; both must fit the
/// diff representation.
pub(crate) fn record_diff(
    offsets: &mut Vec<usize>,
    diffs: &mut Vec<i64>,
    input_offset: usize,
    target_len: usize,
    rep_len: usize,
    Ghost(in_pos): Ghost<int>,
    Ghost(out_pos): Ghost<int>,
    Ghost(in_cap): Ghost<int>,
    Ghost(out_cap): Ghost<int>,
)
    requires
        building_wf(old(offsets)@, old(diffs)@, in_pos, out_pos),
        1 <= target_len <= input_offset,
        in_pos <= input_offset - target_len,
        input_offset <= in_cap,
        in_cap <= i64::MAX,
        (input_offset - target_len) - in_pos + out_pos + rep_len <= out_cap,
        out_cap <= i64::MAX,
        out_cap <= usize::MAX,
    ensures
        building_wf(
            final(offsets)@,
            final(diffs)@,
            input_offset as int,
            (input_offset - target_len) - in_pos + out_pos + rep_len,
        ),
        (int_offsets(final(offsets)@), int_diffs(final(diffs)@)) == table_step(
            int_offsets(old(offsets)@),
            int_diffs(old(diffs)@),
            input_offset - target_len,
            input_offset as int,
            rep_len as int,
        ),
{
    let ghost match_start: int = input_offset - target_len;
    let ghost cum: int = in_pos - out_pos;
    let ghost out_s: int = match_start - cum;
    let ghost out_e: int = out_s + rep_len;
    proof {
        lemma_building_advance(offsets@, diffs@, in_pos, out_pos, match_start - in_pos);
    }
    let prev: i64 = if diffs.len() > 0 {
        diffs[diffs.len() - 1]
    } else {
        0
    };
    assert(prev as int == cum);
    if target_len > rep_len {
        // The replacement shrinks the text: one entry at the output boundary
        // after the replacement.
        let diff_b: i128 = target_len as i128 - rep_len as i128;
        let o128: i128 = input_offset as i128 - diff_b - prev as i128;
        let d128: i128 = prev as i128 + diff_b;
        assert(o128 == out_s + rep_len);
        assert(d128 == input_offset - out_e);
        let o: usize = o128 as usize;
        let d: i64 = d128 as i64;
        let ghost old_off = offsets@;
        let ghost old_dif = diffs@;
        add_offset_diff(offsets, diffs, o, d);
        proof {
            if old_off.len() > 0 && old_off.last() == o {
                assert(int_offsets(offsets@) =~= int_offsets(old_off));
                assert(int_diffs(diffs@) =~= int_diffs(old_dif).update(
                    int_diffs(old_dif).len() - 1,
                    d as int,
                ));
                lemma_diff_at_replace(old_off, old_dif, d, out_e);
                assert forall|q: int| 0 <= q < out_e implies 0 <= q + #[trigger] diff_at(
                    offsets@,
                    diffs@,
                    q,
                ) <= input_offset by {
                    lemma_diff_at_replace(old_off, old_dif, d, q);
                    if old_off.last() <= q {
                    } else {
                        assert(0 <= q + diff_at(old_off, old_dif, q) <= match_start);
                    }
                }
            } else {
                assert(int_offsets(offsets@) =~= int_offsets(old_off).push(o as int));
                assert(int_diffs(diffs@) =~= int_diffs(old_dif).push(d as int));
                assert(old_off.len() > 0 ==> old_off.last() < o);
                assert forall|q: int| 0 <= q < out_e implies 0 <= q + #[trigger] diff_at(
                    offsets@,
                    diffs@,
                    q,
                ) <= input_offset by {
                    lemma_diff_at_push(old_off, old_dif, o, d, q);
                    if o <= q {
                    } else if q < out_s {
                        assert(0 <= q + diff_at(old_off, old_dif, q) <= match_start);
                    } else {
                        lemma_building_advance(old_off, old_dif, match_start, out_s, 0);
                        assert(diff_at(old_off, old_dif, q) == cum);
                    }
                }
            }
            assert(cum_of(int_diffs(diffs@)) == input_offset - out_e);
        }
    } else if target_len < rep_len {
        // The replacement grows the text: one entry per inserted byte, each
        // mapping back to the last input position of the span.
        let g: usize = rep_len - target_len;
        let os128: i128 = input_offset as i128 - prev as i128;
        assert(os128 == out_s + target_len);
        let ghost os: int = out_s + target_len;
        let ghost old_off = offsets@;
        let ghost old_dif = diffs@;
        let mut k: usize = 0;
        while k < g
            invariant
                0 <= k <= g,
                g == rep_len - target_len,
                1 <= target_len <= input_offset,
                os == out_s + target_len,
                os128 == os,
                out_e == os + g,
                out_e <= out_cap <= i64::MAX,
                out_cap <= usize::MAX,
                input_offset <= in_cap <= i64::MAX,
                prev as int == cum,
                cum == match_start - out_s,
                0 <= out_s,
                0 <= match_start,
                building_wf(old_off, old_dif, match_start, out_s),
                table_wf(offsets@, diffs@),
                offsets@.len() == diffs@.len(),
                k == 0 ==> offsets@ == old_off && diffs@ == old_dif,
                k > 0 ==> offsets@.len() > 0 && offsets@.last() == os + k - 1,
                (int_offsets(offsets@), int_diffs(diffs@)) == emit_grow(
                    int_offsets(old_off),
                    int_diffs(old_dif),
                    os,
                    cum,
                    k as nat,
                ),
                forall|q: int| q < os ==> diff_at(offsets@, diffs@, q) == diff_at(
                    old_off,
                    old_dif,
                    q,
                ),
                forall|q: int|
                    os <= q < os + k ==> diff_at(offsets@, diffs@, q) == cum - (q - os) - 1,
            decreases g - k,
        {
            let o: usize = (os128 + k as i128) as usize;
            let d: i64 = (prev as i128 - k as i128 - 1) as i64;
            let ghost cur_off = offsets@;
            let ghost cur_dif = diffs@;
            proof {
                if k == 0 {
                    if old_off.len() > 0 {
                        assert(old_off.last() <= out_s);
                    }
                } else {
                    assert(cur_off.last() == os + k - 1);
                }
                assert(cur_off.len() > 0 ==> cur_off.last() < o);
            }
            add_offset_diff(offsets, diffs, o, d);
            proof {
                assert(int_offsets(offsets@) =~= int_offsets(cur_off).push(o as int));
                assert(int_diffs(diffs@) =~= int_diffs(cur_dif).push(d as int));
                assert forall|q: int| q < os implies diff_at(offsets@, diffs@, q) == diff_at(
                    old_off,
                    old_dif,
                    q,
                ) by {
                    lemma_diff_at_push(cur_off, cur_dif, o, d, q);
                }
                assert forall|q: int| os <= q < os + k + 1 implies diff_at(offsets@, diffs@, q)
                    == cum - (q - os) - 1 by {
                    lemma_diff_at_push(cur_off, cur_dif, o, d, q);
                }
            }
            k = k + 1;
        }
        proof {
            assert(offsets@.len() > 0 && offsets@.last() == os + g - 1);
            assert(offsets@.last() <= out_e);
            assert(cum_of(int_diffs(diffs@)) == cum - g) by {
                assert(diff_at(offsets@, diffs@, os + g - 1) == cum - (os + g - 1 - os) - 1);
                assert(diff_at(offsets@, diffs@, os + g - 1) == diffs@.last() as int);
            }
            assert(cum_of(int_diffs(diffs@)) == input_offset - out_e);
            assert forall|q: int| 0 <= q < out_e implies 0 <= q + #[trigger] diff_at(offsets@, diffs@, q)
                <= input_offset by {
                if q < out_s {
                    assert(0 <= q + diff_at(old_off, old_dif, q) <= match_start);
                } else if q < os {
                    lemma_building_advance(old_off, old_dif, match_start, out_s, 0);
                    assert(diff_at(old_off, old_dif, q) == cum);
                } else {
                    assert(diff_at(offsets@, diffs@, q) == cum - (q - os) - 1);
                }
            }
        }
    } else {
        // Equal lengths: nothing to record.
        proof {
            lemma_building_advance(offsets@, diffs@, match_start, out_s, 0);
            assert forall|q: int| 0 <= q < out_e implies 0 <= q + #[trigger] diff_at(offsets@, diffs@, q)
                <= input_offset by {
                if out_s <= q {
                    assert(diff_at(offsets@, diffs@, q) == cum);
                }
            }
        }
    }
}

/// The position corrected through the diff tables from index `i` on, the
/// last table first: each filter's table maps its own output back to its
/// own input, so a position in the final text is corrected through the
/// chain in reverse application order.
pub open spec fn corrected_through(
    tables: Seq<(Vec<usize>, Vec<i64>)>,
    pos: int,
    i: int,
) -> int
    decreases tables.len() - i,
{
    if i < 0 || i >= tables.len() {
        pos
    } else {
        corrected(tables[i].0@, tables[i].1@, corrected_through(tables, pos, i + 1))
    }
}

/// Corrects a final-text position back through a chain of diff tables, one
/// per character filter in application order, exactly as
/// `corrected_through` says.
pub fn correct_through(tables: &Vec<(Vec<usize>, Vec<i64>)>, position: usize) -> (r: usize)
    requires
        forall|i: int|
            0 <= i < tables@.len() ==> table_wf((#[trigger] tables@[i]).0@, tables@[i].1@),
        forall|i: int|
            0 <= i < tables@.len() ==> 0 <= #[trigger] corrected_through(
                tables@,
                position as int,
                i,
            ) <= usize::MAX,
    ensures
        r == corrected_through(tables@, position as int, 0),
{
    let mut pos = position;
    let mut i: usize = tables.len();
    while i > 0
        invariant
            i <= tables@.len(),
            forall|j: int|
                0 <= j < tables@.len() ==> table_wf((#[trigger] tables@[j]).0@, tables@[j].1@),
            forall|j: int|
                0 <= j < tables@.len() ==> 0 <= #[trigger] corrected_through(
                    tables@,
                    position as int,
                    j,
                ) <= usize::MAX,
            pos == corrected_through(tables@, position as int, i as int),
        decreases i,
    {
        let (offsets, diffs) = &tables[i - 1];
        proof {
            assert(corrected_through(tables@, position as int, i - 1) == corrected(
                tables@[i - 1].0@,
                tables@[i - 1].1@,
                pos as int,
            ));
        }
        pos = correct_offset(pos, offsets, diffs, 0);
        i = i - 1;
    }
    pos
}

/// Maps a filtered-text position back through a diff table.
///
/// The `text_len` argument is the length of the filtered text; it is accepted
/// for symmetry with the filters that produce the table but plays no part in
/// the lookup, which depends on the table alone.
pub fn correct_offset(offset: usize, offsets: &Vec<usize>, diffs: &Vec<i64>, text_len: usize) -> (r:
    usize)
    requires
        table_wf(offsets@, diffs@),
        0 <= corrected(offsets@, diffs@, offset as int) <= usize::MAX,
    ensures
        r == corrected(offsets@, diffs@, offset as int),
{
    let _ = text_len;
    let mut i: usize = offsets.len();
    proof {
        assert(offsets@.take(i as int) =~= offsets@);
        assert(diffs@.take(i as int) =~= diffs@);
    }
    while i > 0
        invariant
            i <= offsets@.len(),
            table_wf(offsets@, diffs@),
            0 <= corrected(offsets@, diffs@, offset as int) <= usize::MAX,
            diff_at(offsets@, diffs@, offset as int) == diff_at(
                offsets@.take(i as int),
                diffs@.take(i as int),
                offset as int,
            ),
        decreases i,
    {
        if offsets[i - 1] <= offset {
            proof {
                assert(offsets@.take(i as int).last() == offsets@[i - 1]);
                assert(diffs@.take(i as int).last() == diffs@[i - 1]);
            }
            let diff: i64 = diffs[i - 1];
            let corrected_pos: i128 = offset as i128 + diff as i128;
            return corrected_pos as usize;
        }
        proof {
            assert(offsets@.take(i as int).drop_last() =~= offsets@.take(i - 1));
            assert(diffs@.take(i as int).drop_last() =~= diffs@.take(i - 1));
        }
        i = i - 1;
    }
    proof {
        assert(offsets@.take(0) =~= Seq::<usize>::empty());
        assert(diffs@.take(0) =~= Seq::<i64>::empty());
    }
    offset
}

} // verus!
