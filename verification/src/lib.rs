//! Uniquifies the DateTimeOriginal of burst-shot JPEGs at second granularity
//! in natural filename order.
//!
//! Assignment rule: new time = max(original time, previous file's new time + 1 second).

pub mod error;
pub mod exif_datetime;
pub mod exif_patch;
pub mod jpeg_files;

pub use error::ExifError;
pub use exif_datetime::{ExifDateTime, EXIF_DATETIME_FORMAT};
pub use jpeg_files::{is_jpeg_name, select_jpegs};

use crate::exif_datetime::{parse_bytes, reads_as, result_view, DateTimeFields};
use crate::exif_patch::{
    datetime_offsets, find_datetime_offsets, lemma_patch_writes_every_area,
    original_time, patch_datetimes, read_datetime_at, read_datetime_original, same_or_disjoint,
    write_all, DATETIME_LEN,
};
use vstd::prelude::*;

verus! {

/// The caller's choices for a run.
pub struct Options {
    /// If true, do not rewrite; only compute the date-times to be assigned
    pub dry_run: bool,
}

/// Result of processing one file (DateTimeOriginal before/after)
#[derive(Debug)]
pub struct FileOutcome {
    pub old: ExifDateTime,
    pub new: ExifDateTime,
}

/// The date-time of a per-file result, `None` for a file whose time could not be read.
pub open spec fn result_fields(r: Result<ExifDateTime, ExifError>) -> Option<DateTimeFields> {
    match r {
        Ok(d) => Some(d@),
        Err(_) => None,
    }
}

/// The later of two date-times (the second one when they are equal).
pub open spec fn later_of(a: DateTimeFields, b: DateTimeFields) -> DateTimeFields {
    if a.before(b) {
        b
    } else {
        a
    }
}

/// The time assigned to a file whose original time is `t`, given the time
/// assigned to the previous readable file: max(original time, previous new
/// time + 1 second); the first file keeps its original time.
pub open spec fn assign_next(prev: Option<DateTimeFields>, t: DateTimeFields) -> DateTimeFields {
    match prev {
        None => t,
        Some(p) => later_of(t, p.next_second()),
    }
}

/// The last time present in a sequence of optional times.
pub open spec fn last_present(a: Seq<Option<DateTimeFields>>) -> Option<DateTimeFields>
    decreases a.len(),
{
    if a.len() == 0 {
        None
    } else {
        match a.last() {
            Some(x) => Some(x),
            None => last_present(a.drop_last()),
        }
    }
}

/// The times assigned, in processing order, to files with the given original
/// times; files without a readable time (`None`) are skipped and get none.
pub open spec fn assigned(origs: Seq<Option<DateTimeFields>>) -> Seq<Option<DateTimeFields>>
    decreases origs.len(),
{
    if origs.len() == 0 {
        Seq::empty()
    } else {
        let a = assigned(origs.drop_last());
        a.push(
            match origs.last() {
                None => None,
                Some(t) => Some(assign_next(last_present(a), t)),
            },
        )
    }
}

/// Assigning the times requires stepping past the latest representable second.
pub open spec fn assignment_overflows(origs: Seq<Option<DateTimeFields>>) -> bool
    decreases origs.len(),
{
    if origs.len() == 0 {
        false
    } else {
        assignment_overflows(origs.drop_last()) || (origs.last() is Some && (last_present(
            assigned(origs.drop_last()),
        ) matches Some(p) && p.is_last()))
    }
}

/// Finalizes, in processing order, "new time = max(original time, previous new
/// time + 1 second)". Files whose original time could not be read keep their
/// error and are excluded from the assignment. `None` when some step would go
/// past the latest representable second.
pub fn assign_times(originals: &Vec<Result<ExifDateTime, ExifError>>) -> (r: Option<
    Vec<Result<ExifDateTime, ExifError>>,
>)
    ensures
        r is None <==> assignment_overflows(originals@.map_values(|o| result_fields(o))),
        r matches Some(v) ==> {
            &&& v@.map_values(|o| result_fields(o)) == assigned(
                originals@.map_values(|o| result_fields(o)),
            )
            &&& v@.len() == originals@.len()
            &&& forall|i: int|
                0 <= i < v@.len() ==> (#[trigger] originals@[i] matches Err(e) ==> v@[i] == Err::<
                    ExifDateTime,
                    ExifError,
                >(e))
        },
{
    let ghost origs = originals@.map_values(|o| result_fields(o));
    let mut prev: Option<ExifDateTime> = None;
    let mut out: Vec<Result<ExifDateTime, ExifError>> = Vec::new();
    let mut i: usize = 0;
    while i < originals.len()
        invariant
            origs == originals@.map_values(|o| result_fields(o)),
            0 <= i <= originals@.len(),
            out@.len() == i,
            out@.map_values(|o| result_fields(o)) == assigned(origs.take(i as int)),
            !assignment_overflows(origs.take(i as int)),
            match prev {
                Some(p) => last_present(assigned(origs.take(i as int))) == Some(p@),
                None => last_present(assigned(origs.take(i as int))) is None,
            },
            forall|j: int|
                0 <= j < i ==> (#[trigger] originals@[j] matches Err(e) ==> out@[j] == Err::<
                    ExifDateTime,
                    ExifError,
                >(e)),
        decreases originals@.len() - i,
    {
        let ghost before = assigned(origs.take(i as int));
        assert(origs.take(i + 1).drop_last() =~= origs.take(i as int));
        assert(origs.take(i + 1).last() == result_fields(originals@[i as int]));
        match originals[i] {
            Ok(t) => {
                let new = match prev {
                    None => t,
                    Some(p) => {
                        if p.is_last() {
                            proof {
                                lemma_overflow_extends(origs, i as int);
                            }
                            return None;
                        }
                        let s = p.succ();
                        if t.is_before(&s) {
                            s
                        } else {
                            t
                        }
                    },
                };
                out.push(Ok(new));
                prev = Some(new);
            },
            Err(e) => {
                out.push(Err(e));
            },
        }
        assert(out@.map_values(|o| result_fields(o)) =~= assigned(origs.take(i + 1)));
        assert(assigned(origs.take(i + 1)).drop_last() =~= before);
        i = i + 1;
    }
    assert(origs.take(originals@.len() as int) =~= origs);
    Some(out)
}

/// Once a prefix of the original times overflows, the whole sequence does.
proof fn lemma_overflow_extends(origs: Seq<Option<DateTimeFields>>, i: int)
    requires
        0 <= i < origs.len(),
        assignment_overflows(origs.take(i + 1)),
    ensures
        assignment_overflows(origs),
    decreases origs.len() - i,
{
    if i + 1 == origs.len() {
        assert(origs.take(i + 1) =~= origs);
    } else {
        assert(origs.take(i + 2).drop_last() =~= origs.take(i + 1));
        lemma_overflow_extends(origs, i + 1);
    }
}

/// The present times strictly increase along the sequence.
pub open spec fn strictly_increasing(a: Seq<Option<DateTimeFields>>) -> bool {
    forall|i: int, j: int|
        0 <= i < j < a.len() && #[trigger] a[i] is Some && #[trigger] a[j] is Some ==> a[i]->0.before(
            a[j]->0,
        )
}

/// Every present time is at least one second after the previous present time.
pub open spec fn one_second_apart(a: Seq<Option<DateTimeFields>>) -> bool {
    forall|i: int|
        0 <= i < a.len() && #[trigger] a[i] is Some && last_present(a.take(i)) is Some
            ==> !a[i]->0.before(last_present(a.take(i))->0.next_second())
}

/// The assigned time at each position, stated through the prefix before it.
proof fn lemma_assigned_at(origs: Seq<Option<DateTimeFields>>)
    ensures
        assigned(origs).len() == origs.len(),
        forall|i: int|
            0 <= i < origs.len() ==> #[trigger] assigned(origs)[i] == match origs[i] {
                None => None,
                Some(t) => Some(assign_next(last_present(assigned(origs.take(i))), t)),
            },
        forall|i: int| 0 <= i <= origs.len() ==> #[trigger] assigned(origs).take(i) == assigned(origs.take(i)),
    decreases origs.len(),
{
    if origs.len() > 0 {
        let rest = origs.drop_last();
        lemma_assigned_at(rest);
        assert forall|i: int| 0 <= i < rest.len() implies #[trigger] rest.take(i) == origs.take(i) by {
            assert(rest.take(i) =~= origs.take(i));
        }
        assert(origs.take(rest.len() as int) =~= rest);
        assert forall|i: int| 0 <= i <= origs.len() implies #[trigger] assigned(origs).take(i)
            == assigned(origs.take(i)) by {
            if i == origs.len() {
                assert(origs.take(i) =~= origs);
                assert(assigned(origs).take(i) =~= assigned(origs));
            } else {
                assert(rest.take(i) == origs.take(i));
                assert(assigned(origs).take(i) =~= assigned(rest).take(i));
            }
        }
    }
}

/// In a strictly increasing sequence, the last present time is the greatest.
proof fn lemma_last_present_is_greatest(a: Seq<Option<DateTimeFields>>)
    requires
        strictly_increasing(a),
    ensures
        forall|i: int|
            0 <= i < a.len() && #[trigger] a[i] is Some ==> (last_present(a) matches Some(p) && (
            a[i]->0 == p || a[i]->0.before(p))),
        last_present(a) is None ==> forall|i: int| 0 <= i < a.len() ==> #[trigger] a[i] is None,
    decreases a.len(),
{
    if a.len() > 0 {
        let b = a.drop_last();
        assert(strictly_increasing(b)) by {
            assert forall|i: int, j: int|
                0 <= i < j < b.len() && #[trigger] b[i] is Some && #[trigger] b[j] is Some implies b[i]->0.before(
                b[j]->0) by {
                assert(a[i] == b[i] && a[j] == b[j]);
            }
        }
        lemma_last_present_is_greatest(b);
        assert forall|i: int| 0 <= i < a.len() && #[trigger] a[i] is Some implies (last_present(
            a,
        ) matches Some(p) && (a[i]->0 == p || a[i]->0.before(p))) by {
            if i < a.len() - 1 {
                assert(a[i] == b[i]);
                if a.last() is Some {
                    assert(a[a.len() - 1] is Some);
                }
            }
        }
        assert forall|i: int| 0 <= i < a.len() && last_present(a) is None implies #[trigger] a[i] is None by {
            if i < a.len() - 1 {
                assert(a[i] == b[i]);
            }
        }
    }
}

/// The last present time of a sequence all of whose times are absent is absent.
proof fn lemma_last_present_none(a: Seq<Option<DateTimeFields>>)
    requires
        forall|i: int| 0 <= i < a.len() ==> #[trigger] a[i] is None,
    ensures
        last_present(a) is None,
    decreases a.len(),
{
    if a.len() > 0 {
        let b = a.drop_last();
        assert forall|i: int| 0 <= i < b.len() implies #[trigger] b[i] is None by {
            assert(a[i] == b[i]);
        }
        lemma_last_present_none(b);
        assert(a[a.len() - 1] is None);
    }
}

/// The assigned time is never earlier than one second after the previous one.
proof fn lemma_assign_next_bounds(prev: Option<DateTimeFields>, t: DateTimeFields)
    ensures
        assign_next(prev, t) == t || t.before(assign_next(prev, t)),
        prev matches Some(p) ==> !assign_next(prev, t).before(p.next_second()),
        prev matches Some(p) ==> p.before(assign_next(prev, t)),
        prev matches Some(p) ==> (!t.before(p.next_second()) ==> assign_next(prev, t) == t),
{
    if let Some(p) = prev {
        let s = p.next_second();
        crate::exif_datetime::lemma_next_second_is_later(p);
        crate::exif_datetime::lemma_before_strict_order(p, s, t);
        crate::exif_datetime::lemma_before_strict_order(t, s, t);
        crate::exif_datetime::lemma_before_strict_order(s, t, s);
        crate::exif_datetime::lemma_before_total(s, t);
    }
}

/// The assigned times strictly increase in processing order, so no two files
/// share a second.
pub proof fn lemma_assigned_strictly_increasing(origs: Seq<Option<DateTimeFields>>)
    ensures
        strictly_increasing(assigned(origs)),
    decreases origs.len(),
{
    if origs.len() > 0 {
        let rest = origs.drop_last();
        lemma_assigned_strictly_increasing(rest);
        lemma_assigned_at(rest);
        let a = assigned(rest);
        let full = assigned(origs);
        lemma_last_present_is_greatest(a);
        assert(full == a.push(full.last()));
        assert forall|i: int, j: int|
            0 <= i < j < full.len() && #[trigger] full[i] is Some && #[trigger] full[j] is Some implies full[i]->0.before(
            full[j]->0) by {
            if j < full.len() - 1 {
                assert(full[i] == a[i] && full[j] == a[j]);
            } else {
                assert(full[i] == a[i]);
                let t = origs.last()->0;
                let p = last_present(a)->0;
                lemma_assign_next_bounds(last_present(a), t);
                crate::exif_datetime::lemma_before_strict_order(a[i]->0, p, full[j]->0);
            }
        }
    }
}

/// Each file's assigned time is its original time or later; files whose time
/// could not be read get none.
pub proof fn lemma_assigned_not_earlier(origs: Seq<Option<DateTimeFields>>)
    ensures
        assigned(origs).len() == origs.len(),
        forall|i: int|
            0 <= i < origs.len() ==> (#[trigger] origs[i] is None <==> assigned(origs)[i] is None),
        forall|i: int|
            0 <= i < origs.len() && #[trigger] origs[i] is Some ==> (assigned(origs)[i]->0
                == origs[i]->0 || origs[i]->0.before(assigned(origs)[i]->0)),
{
    lemma_assigned_at(origs);
    assert forall|i: int| 0 <= i < origs.len() && #[trigger] origs[i] is Some implies (
    assigned(origs)[i]->0 == origs[i]->0 || origs[i]->0.before(assigned(origs)[i]->0)) by {
        lemma_assign_next_bounds(last_present(assigned(origs.take(i))), origs[i]->0);
    }
}

/// The first file with a readable time keeps its original time.
pub proof fn lemma_first_keeps_original(origs: Seq<Option<DateTimeFields>>, i: int)
    requires
        0 <= i < origs.len(),
        origs[i] is Some,
        forall|j: int| 0 <= j < i ==> #[trigger] origs[j] is None,
    ensures
        assigned(origs)[i] == origs[i],
{
    lemma_assigned_at(origs);
    lemma_assigned_at(origs.take(i));
    let a = assigned(origs.take(i));
    assert forall|j: int| 0 <= j < a.len() implies #[trigger] a[j] is None by {
        assert(origs.take(i)[j] == origs[j]);
    }
    lemma_last_present_none(a);
}

/// Times that are already at least one second apart are kept as they are.
pub proof fn lemma_spaced_times_kept(origs: Seq<Option<DateTimeFields>>)
    requires
        one_second_apart(origs),
    ensures
        assigned(origs) == origs,
    decreases origs.len(),
{
    if origs.len() > 0 {
        let rest = origs.drop_last();
        assert(one_second_apart(rest)) by {
            assert forall|i: int|
                0 <= i < rest.len() && #[trigger] rest[i] is Some && last_present(rest.take(i)) is Some
                    implies !rest[i]->0.before(last_present(rest.take(i))->0.next_second()) by {
                assert(rest.take(i) =~= origs.take(i));
                assert(rest[i] == origs[i]);
            }
        }
        lemma_spaced_times_kept(rest);
        assert(origs.take(rest.len() as int) =~= rest);
        let n = origs.len() - 1;
        if origs[n] is Some {
            lemma_assign_next_bounds(last_present(rest), origs[n]->0);
        }
        assert(assigned(origs) =~= origs);
    }
}

/// The assigned times are themselves at least one second apart.
pub proof fn lemma_assigned_one_second_apart(origs: Seq<Option<DateTimeFields>>)
    ensures
        one_second_apart(assigned(origs)),
{
    lemma_assigned_at(origs);
    let a = assigned(origs);
    assert forall|i: int|
        0 <= i < a.len() && #[trigger] a[i] is Some && last_present(a.take(i)) is Some implies !a[i]->0.before(
        last_present(a.take(i))->0.next_second()) by {
        lemma_assign_next_bounds(last_present(assigned(origs.take(i))), origs[i]->0);
    }
}

/// Running the assignment again on its own output changes nothing, so a
/// second run rewrites no file.
pub proof fn lemma_assignment_idempotent(origs: Seq<Option<DateTimeFields>>)
    ensures
        assigned(assigned(origs)) == assigned(origs),
{
    lemma_assigned_one_second_apart(origs);
    lemma_spaced_times_kept(assigned(origs));
}
/// Every value area holds exactly `bytes`.
pub open spec fn all_areas_hold(buf: Seq<u8>, offs: Seq<usize>, bytes: Seq<u8>) -> bool {
    forall|k: int|
        0 <= k < offs.len() ==> #[trigger] buf.subrange(offs[k] as int, offs[k] + bytes.len())
            == bytes
}

/// `r` and `after` are what rewriting every date-time tag of the JPEG
/// `before` with `new` gives: the old DateTimeOriginal read from `before`, and
/// whether the buffer changed; it changes, by writing `new` into every
/// date-time value area, unless all of them hold `new` already.
pub open spec fn processed(
    before: Seq<u8>,
    new: DateTimeFields,
    r: Result<(FileOutcome, bool), ExifError>,
    after: Seq<u8>,
) -> bool {
    match datetime_offsets(before) {
        Err(e) => r == Err::<(FileOutcome, bool), ExifError>(e) && after == before,
        Ok(o) => {
            let area = before.subrange(
                o.datetime_original as int,
                o.datetime_original + DATETIME_LEN,
            );
            match r {
                Err(e) => reads_as(area, Err(e)) && after == before,
                Ok((outcome, changed)) => {
                    &&& reads_as(area, Ok(outcome.old))
                    &&& outcome.new@ == new
                    &&& changed == !all_areas_hold(before, o.spec_all(), new.exif_bytes())
                    &&& after == if changed {
                        write_all(before, o.spec_all(), new.exif_bytes())
                    } else {
                        before
                    }
                },
            }
        },
    }
}

/// Rewrites, in a JPEG held in memory, every date-time tag with `new`.
///
/// Reads the current DateTimeOriginal, then overwrites the value areas of
/// DateTimeOriginal, DateTimeDigitized and DateTime (where present) with
/// `new`, unless they all hold it already. Returns the old and new times and
/// whether the buffer changed (and so needs to be saved).
pub fn process_buffer(buf: &mut [u8], new: ExifDateTime) -> (r: Result<(FileOutcome, bool), ExifError>)
    requires
        original_time(old(buf)@) is Ok ==> new@.fits_exif(),
    ensures
        processed(old(buf)@, new@, r, final(buf)@),
        r matches Ok((outcome, _)) ==> outcome.new == new,
{
    let offsets = find_datetime_offsets(buf)?;
    assert(offsets.spec_all()[0] == offsets.datetime_original);
    let old = read_datetime_at(buf, offsets.datetime_original)?;
    assert(original_time(buf@) is Ok);
    // Skip writing entirely if every target tag already matches the assigned time
    let new_bytes = new.to_exif_bytes();
    let all = offsets.all();
    let mut unchanged = true;
    let mut k: usize = 0;
    while k < all.len()
        invariant
            all@ == offsets.spec_all(),
            offsets.within(buf@.len()),
            new_bytes@ == new@.exif_bytes(),
            new_bytes@.len() == DATETIME_LEN,
            0 <= k <= all@.len(),
            unchanged == all_areas_hold(buf@, all@.take(k as int), new_bytes@),
        decreases all@.len() - k,
    {
        let o = all[k];
        assert(o + DATETIME_LEN <= buf@.len());
        let mut same = true;
        let mut j: usize = 0;
        while j < DATETIME_LEN
            invariant
                0 <= j <= DATETIME_LEN,
                o + DATETIME_LEN <= buf@.len(),
                new_bytes@.len() == DATETIME_LEN,
                same == (forall|p: int| 0 <= p < j ==> buf@[o + p] == new_bytes@[p]),
            decreases DATETIME_LEN - j,
        {
            if buf[o + j] != new_bytes[j] {
                same = false;
            }
            j = j + 1;
        }
        assert(same == (buf@.subrange(o as int, o + DATETIME_LEN) =~= new_bytes@));
        let ghost next = all@.take(k + 1);
        assert(next[k as int] == o);
        assert((unchanged && same) == all_areas_hold(buf@, next, new_bytes@)) by {
            if unchanged && same {
                assert forall|m: int| 0 <= m < next.len() implies #[trigger] buf@.subrange(
                    next[m] as int,
                    next[m] + new_bytes@.len(),
                ) == new_bytes@ by {
                    if m < k {
                        assert(next[m] == all@.take(k as int)[m]);
                    }
                }
            }
            if all_areas_hold(buf@, next, new_bytes@) {
                assert(buf@.subrange(next[k as int] as int, next[k as int] + new_bytes@.len())
                    == new_bytes@);
                assert forall|m: int| 0 <= m < k implies #[trigger] buf@.subrange(
                    all@.take(k as int)[m] as int,
                    all@.take(k as int)[m] + new_bytes@.len(),
                ) == new_bytes@ by {
                    assert(next[m] == all@.take(k as int)[m]);
                }
            }
        }
        unchanged = unchanged && same;
        k = k + 1;
    }
    assert(all@.take(all@.len() as int) =~= all@);
    if !unchanged {
        patch_datetimes(buf, &offsets, new);
    }
    Ok((FileOutcome { old, new }, !unchanged))
}

/// Re-running is idempotent: processing a file again with the time it was
/// just given reads that time back and writes nothing, provided its
/// date-time value areas are pairwise the same or disjoint and the rewrite
/// left the tag structure in place.
pub proof fn lemma_second_pass_writes_nothing(
    before: Seq<u8>,
    new: DateTimeFields,
    r: Result<(FileOutcome, bool), ExifError>,
    after: Seq<u8>,
    r2: Result<(FileOutcome, bool), ExifError>,
    after2: Seq<u8>,
)
    requires
        new.valid(),
        new.fits_exif(),
        processed(before, new, r, after),
        r is Ok,
        datetime_offsets(before) matches Ok(o) && same_or_disjoint(o.spec_all(), DATETIME_LEN as int),
        datetime_offsets(after) == datetime_offsets(before),
        processed(after, new, r2, after2),
    ensures
        r2 matches Ok((outcome, changed)) && !changed && outcome.old@ == new,
        after2 == after,
{
    lemma_new_time_in_place(before, new, r, after);
}

/// After processing a file whose value areas are pairwise the same or
/// disjoint, every area holds the EXIF bytes of the new time.
proof fn lemma_new_time_in_place(
    before: Seq<u8>,
    new: DateTimeFields,
    r: Result<(FileOutcome, bool), ExifError>,
    after: Seq<u8>,
)
    requires
        new.valid(),
        new.fits_exif(),
        processed(before, new, r, after),
        r is Ok,
        datetime_offsets(before) matches Ok(o) && same_or_disjoint(o.spec_all(), DATETIME_LEN as int),
    ensures
        datetime_offsets(before) matches Ok(o) && all_areas_hold(
            after,
            o.spec_all(),
            new.exif_bytes(),
        ) && after.subrange(o.datetime_original as int, o.datetime_original + DATETIME_LEN)
            == new.exif_bytes(),
{
    let o = datetime_offsets(before)->Ok_0;
    crate::exif_patch::lemma_offsets_within(before);
    crate::exif_datetime::lemma_exif_bytes_len(new);
    let bytes = new.exif_bytes();
    let (outcome, changed) = r->Ok_0;
    if changed {
        lemma_patch_writes_every_area(before, o.spec_all(), bytes);
    }
    assert(all_areas_hold(after, o.spec_all(), bytes));
    assert(o.spec_all()[0] == o.datetime_original);
    assert(after.subrange(o.datetime_original as int, o.datetime_original + DATETIME_LEN) == bytes);
}

/// Whether a processed file is written back: only when its bytes changed
/// and the run is not a dry run.
pub fn must_write(changed: bool, opts: &Options) -> (w: bool)
    ensures
        w == (changed && !opts.dry_run),
{
    changed && !opts.dry_run
}

/// The DateTimeOriginal value area of `buf` holds the EXIF bytes of `x`.
pub open spec fn original_holds(buf: Seq<u8>, x: DateTimeFields) -> bool {
    datetime_offsets(buf) matches Ok(o) && buf.subrange(
        o.datetime_original as int,
        o.datetime_original + DATETIME_LEN,
    ) == x.exif_bytes()
}

/// Why a whole run stops before rewriting anything.
#[derive(Clone, Copy, Debug, PartialEq, Eq, Structural)]
pub enum RunAbort {
    /// There is no JPEG file to process.
    NoTargetFiles,
    /// Some file would be pushed past the latest representable second.
    SecondOverflow,
    /// Some file's new time has a year that the four digits of the EXIF
    /// date-time format cannot hold.
    YearNotRepresentable,
}

/// The original time of a JPEG buffer, `None` when it cannot be read.
pub open spec fn original_fields(buf: Seq<u8>) -> Option<DateTimeFields> {
    match original_time(buf) {
        Ok(f) => Some(f),
        Err(_) => None,
    }
}

/// The original times of the buffers, in processing order.
pub open spec fn originals_of(buffers: Seq<Vec<u8>>) -> Seq<Option<DateTimeFields>> {
    buffers.map_values(|b: Vec<u8>| original_fields(b@))
}

/// Some file's new time does not fit the EXIF date-time format.
pub open spec fn some_year_unrepresentable(origs: Seq<Option<DateTimeFields>>) -> bool {
    exists|i: int|
        0 <= i < origs.len() && (#[trigger] assigned(origs)[i] matches Some(t) && !t.fits_exif())
}

/// What a whole run over the buffers `before` gives, `r` and the buffers
/// `after`:
/// - no buffer at all stops the run with `NoTargetFiles`; some file pushed
///   past the latest representable second stops it with `SecondOverflow`;
///   otherwise some new time with a year outside 0..=9999 stops it with
///   `YearNotRepresentable`; a stopped run changes no buffer;
/// - a file whose DateTimeOriginal area holds the EXIF bytes of a valid
///   date-time `x` with a four-digit year is read as `x`;
/// - otherwise each file whose time cannot be read keeps its error and its
///   bytes, and each other file is processed with its assigned time; its
///   result is `Ok` and its new time is valid.
#[verifier::opaque]
pub open spec fn run_outcome(
    before: Seq<Vec<u8>>,
    r: Result<Vec<Result<(FileOutcome, bool), ExifError>>, RunAbort>,
    after: Seq<Vec<u8>>,
) -> bool {
    let origs = originals_of(before);
    &&& r == Err::<Vec<Result<(FileOutcome, bool), ExifError>>, RunAbort>(RunAbort::NoTargetFiles)
        <==> before.len() == 0
    &&& r == Err::<Vec<Result<(FileOutcome, bool), ExifError>>, RunAbort>(RunAbort::SecondOverflow)
        <==> assignment_overflows(origs)
    &&& r == Err::<Vec<Result<(FileOutcome, bool), ExifError>>, RunAbort>(
        RunAbort::YearNotRepresentable,
    ) <==> (!assignment_overflows(origs) && some_year_unrepresentable(origs))
    &&& r is Err ==> after == before
    &&& forall|i: int, x: DateTimeFields|
        0 <= i < before.len() && x.valid() && x.fits_exif() && #[trigger] original_holds(
            before[i]@,
            x,
        ) ==> original_time(before[i]@) == Ok::<DateTimeFields, ExifError>(x)
    &&& r matches Ok(v) ==> {
        &&& v@.len() == before.len()
        &&& after.len() == before.len()
        &&& forall|i: int|
            0 <= i < v@.len() ==> match original_time(before[i]@) {
                Err(e) => #[trigger] v@[i] == Err::<(FileOutcome, bool), ExifError>(e) && after[i]
                    == before[i],
                Ok(_) => processed(before[i]@, assigned(origs)[i]->0, v@[i], after[i]@),
            }
        &&& forall|i: int|
            0 <= i < v@.len() ==> (#[trigger] v@[i] matches Ok((outcome, _)) ==> outcome.new@.valid())
        &&& forall|i: int, x: DateTimeFields|
            0 <= i < v@.len() && x.valid() && x.fits_exif() && #[trigger] original_holds(
                before[i]@,
                x,
            ) ==> (v@[i] matches Ok((outcome, _)) && outcome.old@ == x)
    }
}

/// Processes the JPEGs of a directory, held in memory in natural filename
/// order: reads each file's original DateTimeOriginal, assigns in order
/// "new time = max(original time, previous new time + 1 second)" to the
/// files whose time could be read, then rewrites each of those files with its
/// new time. A file whose time cannot be read keeps its error and is left
/// alone; it does not stop the others.
pub fn process_all(buffers: &mut Vec<Vec<u8>>) -> (r: Result<
    Vec<Result<(FileOutcome, bool), ExifError>>,
    RunAbort,
>)
    ensures
        run_outcome(old(buffers)@, r, final(buffers)@),
{
    proof {
        reveal(run_outcome);
    }
    let ghost start = buffers@;
    let ghost origs = originals_of(start);
    let n = buffers.len();
    if n == 0 {
        return Err(RunAbort::NoTargetFiles);
    }
    let mut originals: Vec<Result<ExifDateTime, ExifError>> = Vec::new();
    let mut i: usize = 0;
    while i < n
        invariant
            buffers@ == start,
            n == start.len(),
            0 <= i <= n,
            originals@.len() == i,
            forall|j: int| 0 <= j < i ==> result_view(#[trigger] originals@[j]) == original_time(start[j]@),
            forall|j: int, x: DateTimeFields|
                0 <= j < i && x.valid() && x.fits_exif() && #[trigger] original_holds(start[j]@, x)
                    ==> original_time(start[j]@) == Ok::<DateTimeFields, ExifError>(x),
        decreases n - i,
    {
        let r = read_datetime_original(buffers[i].as_slice());
        proof {
            crate::exif_patch::lemma_offsets_within(start[i as int]@);
            assert forall|x: DateTimeFields|
                x.valid() && x.fits_exif() && #[trigger] original_holds(start[i as int]@, x)
                    implies original_time(start[i as int]@) == Ok::<DateTimeFields, ExifError>(x) by {
            }
        }
        originals.push(r);
        i = i + 1;
    }
    assert(originals@.map_values(|o| result_fields(o)) =~= origs);
    let assigned_times = match assign_times(&originals) {
        None => {
            return Err(RunAbort::SecondOverflow);
        },
        Some(a) => a,
    };
    proof {
        lemma_assigned_not_earlier(origs);
    }
    let mut i: usize = 0;
    while i < n
        invariant
            n == start.len(),
            buffers@ == start,
            0 <= i <= n,
            assigned_times@.len() == n,
            assigned_times@.map_values(|o| result_fields(o)) == assigned(origs),
            origs == originals_of(start),
            !assignment_overflows(origs),
            forall|j: int, x: DateTimeFields|
                0 <= j < n && x.valid() && x.fits_exif() && #[trigger] original_holds(start[j]@, x)
                    ==> original_time(start[j]@) == Ok::<DateTimeFields, ExifError>(x),
            forall|j: int| 0 <= j < i ==> !(#[trigger] assigned(origs)[j] matches Some(t) && !t.fits_exif()),
            forall|j: int| 0 <= j < i ==> (#[trigger] assigned(origs)[j] matches Some(t) ==> t.valid()),
        decreases n - i,
    {
        assert(result_fields(assigned_times@[i as int]) == assigned(origs)[i as int]);
        if let Ok(t) = assigned_times[i] {
            if !t.fits_exif() {
                assert(assigned(origs)[i as int] matches Some(f) && !f.fits_exif());
                proof {
                    reveal(run_outcome);
                }
                return Err(RunAbort::YearNotRepresentable);
            }
        }
        i = i + 1;
    }
    let mut owned: Vec<Vec<u8>> = Vec::new();
    std::mem::swap(&mut owned, buffers);
    let mut results: Vec<Result<(FileOutcome, bool), ExifError>> = Vec::new();
    let mut i: usize = 0;
    while i < n
        invariant
            n == start.len(),
            0 <= i <= n,
            owned@ == start.skip(i as int),
            buffers@.len() == i,
            results@.len() == i,
            assigned_times@.len() == n,
            assigned_times@.map_values(|o| result_fields(o)) == assigned(origs),
            origs == originals_of(start),
            origs.len() == n,
            forall|j: int| 0 <= j < n ==> !(#[trigger] assigned(origs)[j] matches Some(t) && !t.fits_exif()),
            forall|j: int| 0 <= j < n ==> (#[trigger] assigned(origs)[j] matches Some(t) ==> t.valid()),
            forall|j: int|
                0 <= j < n ==> (#[trigger] origs[j] is None <==> assigned(origs)[j] is None),
            forall|j: int| 0 <= j < n && #[trigger] originals@[j] is Err ==> assigned_times@[j] == originals@[j],
            forall|j: int| 0 <= j < n ==> result_view(#[trigger] originals@[j]) == original_time(start[j]@),
            originals@.len() == n,
            forall|j: int, x: DateTimeFields|
                0 <= j < n && x.valid() && x.fits_exif() && #[trigger] original_holds(start[j]@, x)
                    ==> original_time(start[j]@) == Ok::<DateTimeFields, ExifError>(x),
            forall|j: int|
                0 <= j < i ==> match original_time(start[j]@) {
                    Err(e) => #[trigger] results@[j] == Err::<(FileOutcome, bool), ExifError>(e)
                        && buffers@[j] == start[j],
                    Ok(_) => processed(start[j]@, assigned(origs)[j]->0, results@[j], buffers@[j]@),
                },
        decreases n - i,
    {
        assert(owned@[0] == start[i as int]);
        let mut b = owned.remove(0);
        assert(owned@ =~= start.skip(i + 1));
        assert(result_fields(assigned_times@[i as int]) == assigned(origs)[i as int]);
        assert(origs[i as int] == original_fields(start[i as int]@));
        let r = match assigned_times[i] {
            Err(e) => {
                assert(originals@[i as int] is Err);
                Err(e)
            },
            Ok(new) => process_buffer(b.as_mut_slice(), new),
        };
        results.push(r);
        buffers.push(b);
        i = i + 1;
    }
    assert forall|j: int, x: DateTimeFields|
        0 <= j < results@.len() && x.valid() && x.fits_exif() && #[trigger] original_holds(
            start[j]@,
            x,
        ) implies (results@[j] matches Ok((outcome, _)) && outcome.old@ == x) by {
        assert(original_time(start[j]@) == Ok::<DateTimeFields, ExifError>(x));
    }
    assert forall|j: int| 0 <= j < results@.len() implies (#[trigger] results@[j] matches Ok((
        outcome,
        _,
    )) ==> outcome.new@.valid()) by {
        if original_time(start[j]@) is Ok {
            assert(origs[j] is Some);
        }
    }
    Ok(results)
}

/// The last present time of a sequence is one of its times.
proof fn lemma_last_present_member(a: Seq<Option<DateTimeFields>>)
    ensures
        last_present(a) matches Some(p) ==> exists|k: int| 0 <= k < a.len() && #[trigger] a[k] == Some(p),
    decreases a.len(),
{
    if a.len() > 0 {
        let b = a.drop_last();
        lemma_last_present_member(b);
        if a.last() is None {
            if let Some(p) = last_present(b) {
                let k = choose|k: int| 0 <= k < b.len() && #[trigger] b[k] == Some(p);
                assert(a[k] == b[k]);
            }
        } else {
            assert(a[a.len() - 1] == a.last());
        }
    }
}

/// Times that the assignment keeps as they are, all with four-digit years,
/// never push a file past the latest representable second.
proof fn lemma_settled_times_do_not_overflow(a: Seq<Option<DateTimeFields>>)
    requires
        assigned(a) == a,
        forall|k: int| 0 <= k < a.len() ==> (#[trigger] a[k] matches Some(t) ==> t.fits_exif()),
    ensures
        !assignment_overflows(a),
    decreases a.len(),
{
    if a.len() > 0 {
        let n = a.len() - 1;
        let b = a.drop_last();
        lemma_assigned_at(a);
        assert(a.take(n) =~= b);
        assert(assigned(a).take(n) == assigned(a.take(n)));
        assert(assigned(b) =~= b);
        assert forall|k: int| 0 <= k < b.len() implies (#[trigger] b[k] matches Some(t) ==> t.fits_exif()) by {
            assert(b[k] == a[k]);
        }
        lemma_settled_times_do_not_overflow(b);
        lemma_last_present_member(b);
        if let Some(p) = last_present(b) {
            let k = choose|k: int| 0 <= k < b.len() && #[trigger] b[k] == Some(p);
            assert(b[k] == a[k]);
        }
    }
}

/// One file of a first run: a file whose time could be read gets its
/// assigned time, and afterwards its DateTimeOriginal area holds that time.
proof fn lemma_first_pass_file(
    before: Seq<u8>,
    t: DateTimeFields,
    r: Result<(FileOutcome, bool), ExifError>,
    after: Seq<u8>,
)
    requires
        original_time(before) is Ok,
        processed(before, t, r, after),
        r matches Ok((f, _)) ==> f.new@.valid(),
        t.fits_exif(),
        datetime_offsets(before) matches Ok(o) && same_or_disjoint(o.spec_all(), DATETIME_LEN as int),
        datetime_offsets(after) == datetime_offsets(before),
    ensures
        r matches Ok((f, _)) && f.new@ == t,
        t.valid(),
        original_holds(after, t),
{
    let o = datetime_offsets(before)->Ok_0;
    let area = before.subrange(o.datetime_original as int, o.datetime_original + DATETIME_LEN);
    assert(original_time(before) == parse_bytes(area));
    assert(r is Ok);
    lemma_new_time_in_place(before, t, r, after);
}

/// After a first run that succeeded, and that left every file's tag
/// structure in place, the times read from the rewritten buffers are the
/// times the first run assigned.
proof fn lemma_first_run_reads_back(
    b0: Seq<Vec<u8>>,
    r1: Result<Vec<Result<(FileOutcome, bool), ExifError>>, RunAbort>,
    b1: Seq<Vec<u8>>,
    r2: Result<Vec<Result<(FileOutcome, bool), ExifError>>, RunAbort>,
    b2: Seq<Vec<u8>>,
)
    requires
        run_outcome(b0, r1, b1),
        r1 is Ok,
        forall|i: int|
            0 <= i < b0.len() ==> (#[trigger] datetime_offsets(b0[i]@) matches Ok(o)
                ==> same_or_disjoint(o.spec_all(), DATETIME_LEN as int)),
        forall|i: int| 0 <= i < b0.len() ==> #[trigger] datetime_offsets(b1[i]@) == datetime_offsets(b0[i]@),
        run_outcome(b1, r2, b2),
    ensures
        b1.len() == b0.len(),
        b1.len() > 0,
        originals_of(b1) == assigned(originals_of(b0)),
        forall|k: int|
            0 <= k < b0.len() ==> !(#[trigger] assigned(originals_of(b0))[k] matches Some(u)
                && !u.fits_exif()),
{
    reveal(run_outcome);
    let v1 = r1->Ok_0;
    let o0 = originals_of(b0);
    let a0 = assigned(o0);
    let o1 = originals_of(b1);
    assert(!assignment_overflows(o0));
    assert(!some_year_unrepresentable(o0));
    lemma_assigned_not_earlier(o0);
    assert forall|i: int| 0 <= i < b0.len() implies #[trigger] o1[i] == a0[i] by {
        assert(o0[i] == original_fields(b0[i]@));
        assert(o1[i] == original_fields(b1[i]@));
        if original_time(b0[i]@) is Ok {
            assert(o0[i] is Some);
            let t = a0[i]->0;
            assert(!(a0[i] matches Some(u) && !u.fits_exif()));
            assert(datetime_offsets(b0[i]@) matches Ok(o) ==> same_or_disjoint(
                o.spec_all(),
                DATETIME_LEN as int,
            ));
            assert(v1@[i] matches Ok((f, _)) ==> f.new@.valid());
            lemma_first_pass_file(b0[i]@, t, v1@[i], b1[i]@);
        }
    }
    assert(o1 =~= a0);
}

/// Re-running a whole run on the buffers it produced changes nothing: the
/// second run succeeds, reads back each file's new time as its old time,
/// keeps that time, reports the same error for each file it could not read,
/// and writes no byte. This holds where each file's date-time value areas
/// are pairwise the same or disjoint and the first run left every file's tag
/// structure in place.
pub proof fn lemma_rerun_changes_nothing(
    b0: Seq<Vec<u8>>,
    r1: Result<Vec<Result<(FileOutcome, bool), ExifError>>, RunAbort>,
    b1: Seq<Vec<u8>>,
    r2: Result<Vec<Result<(FileOutcome, bool), ExifError>>, RunAbort>,
    b2: Seq<Vec<u8>>,
)
    requires
        run_outcome(b0, r1, b1),
        r1 is Ok,
        forall|i: int|
            0 <= i < b0.len() ==> (#[trigger] datetime_offsets(b0[i]@) matches Ok(o)
                ==> same_or_disjoint(o.spec_all(), DATETIME_LEN as int)),
        forall|i: int| 0 <= i < b0.len() ==> #[trigger] datetime_offsets(b1[i]@) == datetime_offsets(b0[i]@),
        run_outcome(b1, r2, b2),
    ensures
        r2 is Ok,
        r2 matches Ok(v2) && r1 matches Ok(v1) && v2@.len() == v1@.len() && forall|i: int|
            0 <= i < v2@.len() ==> match #[trigger] v1@[i] {
                Ok((first, _)) => v2@[i] matches Ok((second, changed)) && !changed && second.old@
                    == first.new@ && second.new@ == first.new@,
                Err(e) => v2@[i] == Err::<(FileOutcome, bool), ExifError>(e),
            },
        b2.len() == b1.len(),
        forall|i: int| 0 <= i < b1.len() ==> #[trigger] b2[i]@ == b1[i]@,
{
    lemma_first_run_reads_back(b0, r1, b1, r2, b2);
    lemma_second_run_succeeds(b0, r1, b1, r2, b2);
    lemma_run_file_facts(b0, r1, b1, 0);
    lemma_run_file_facts(b1, r2, b2, 0);
    lemma_assignment_idempotent(originals_of(b0));
    let v1 = r1->Ok_0;
    let v2 = r2->Ok_0;
    assert forall|i: int|
        #![trigger v1@[i]]
        #![trigger b2[i]]
        0 <= i < b0.len() implies match v1@[i] {
        Ok((first, _)) => v2@[i] matches Ok((second, changed)) && !changed && second.old@
            == first.new@ && second.new@ == first.new@,
        Err(e) => v2@[i] == Err::<(FileOutcome, bool), ExifError>(e),
    } && b2[i]@ == b1[i]@ by {
        assert(datetime_offsets(b0[i]@) matches Ok(o) ==> same_or_disjoint(
            o.spec_all(),
            DATETIME_LEN as int,
        ));
        assert(datetime_offsets(b1[i]@) == datetime_offsets(b0[i]@));
        lemma_second_run_at(b0, r1, b1, r2, b2, i);
    }
}

/// The second run of `lemma_rerun_changes_nothing` is not stopped.
proof fn lemma_second_run_succeeds(
    b0: Seq<Vec<u8>>,
    r1: Result<Vec<Result<(FileOutcome, bool), ExifError>>, RunAbort>,
    b1: Seq<Vec<u8>>,
    r2: Result<Vec<Result<(FileOutcome, bool), ExifError>>, RunAbort>,
    b2: Seq<Vec<u8>>,
)
    requires
        run_outcome(b1, r2, b2),
        b1.len() > 0,
        originals_of(b1) == assigned(originals_of(b0)),
        forall|k: int|
            0 <= k < b0.len() ==> !(#[trigger] assigned(originals_of(b0))[k] matches Some(u)
                && !u.fits_exif()),
    ensures
        r2 is Ok,
{
    reveal(run_outcome);
    let o0 = originals_of(b0);
    let a0 = assigned(o0);
    let o1 = originals_of(b1);
    lemma_assigned_not_earlier(o0);
    lemma_assignment_idempotent(o0);
    assert forall|k: int| 0 <= k < o1.len() implies (#[trigger] o1[k] matches Some(t) ==> t.fits_exif()) by {
        assert(!(a0[k] matches Some(u) && !u.fits_exif()));
    }
    lemma_settled_times_do_not_overflow(o1);
    assert(!some_year_unrepresentable(o1)) by {
        assert forall|k: int| 0 <= k < o1.len() implies !(#[trigger] assigned(o1)[k] matches Some(t)
            && !t.fits_exif()) by {
            assert(!(a0[k] matches Some(u) && !u.fits_exif()));
        }
    }
    if let Err(e) = r2 {
        match e {
            RunAbort::NoTargetFiles => {},
            RunAbort::SecondOverflow => {},
            RunAbort::YearNotRepresentable => {},
        }
    }
}

/// One file, run twice: the second run reads back the first run's new time
/// and writes nothing.
proof fn lemma_rerun_file(
    before: Seq<u8>,
    t: DateTimeFields,
    r: Result<(FileOutcome, bool), ExifError>,
    after: Seq<u8>,
    r2: Result<(FileOutcome, bool), ExifError>,
    after2: Seq<u8>,
)
    requires
        original_time(before) is Ok,
        processed(before, t, r, after),
        r matches Ok((f, _)) ==> f.new@.valid(),
        t.fits_exif(),
        datetime_offsets(before) matches Ok(o) && same_or_disjoint(o.spec_all(), DATETIME_LEN as int),
        datetime_offsets(after) == datetime_offsets(before),
        processed(after, t, r2, after2),
    ensures
        r matches Ok((first, _)) && r2 matches Ok((second, changed)) && !changed && second.old@
            == first.new@ && second.new@ == first.new@,
        after2 == after,
{
    lemma_first_pass_file(before, t, r, after);
    lemma_second_pass_writes_nothing(before, t, r, after, r2, after2);
}

/// What a successful run did to the file at position `i`.
proof fn lemma_run_file_facts(
    before: Seq<Vec<u8>>,
    r: Result<Vec<Result<(FileOutcome, bool), ExifError>>, RunAbort>,
    after: Seq<Vec<u8>>,
    i: int,
)
    requires
        run_outcome(before, r, after),
        r is Ok,
        0 <= i < before.len(),
    ensures
        r matches Ok(v) && v@.len() == before.len() && after.len() == before.len() && match original_time(
            before[i]@,
        ) {
            Err(e) => v@[i] == Err::<(FileOutcome, bool), ExifError>(e) && after[i] == before[i],
            Ok(_) => processed(
                before[i]@,
                assigned(originals_of(before))[i]->0,
                v@[i],
                after[i]@,
            ),
        } && (v@[i] matches Ok((f, _)) ==> f.new@.valid()),
{
    reveal(run_outcome);
    let v = r->Ok_0;
    assert(v@.len() == before.len());
    assert(v@[i] matches Ok((f, _)) ==> f.new@.valid());
}

/// The file at position `i` in the second run of `lemma_rerun_changes_nothing`.
proof fn lemma_second_run_at(
    b0: Seq<Vec<u8>>,
    r1: Result<Vec<Result<(FileOutcome, bool), ExifError>>, RunAbort>,
    b1: Seq<Vec<u8>>,
    r2: Result<Vec<Result<(FileOutcome, bool), ExifError>>, RunAbort>,
    b2: Seq<Vec<u8>>,
    i: int,
)
    requires
        run_outcome(b0, r1, b1),
        r1 is Ok,
        r2 is Ok,
        0 <= i < b0.len(),
        datetime_offsets(b0[i]@) matches Ok(o) ==> same_or_disjoint(o.spec_all(), DATETIME_LEN as int),
        datetime_offsets(b1[i]@) == datetime_offsets(b0[i]@),
        run_outcome(b1, r2, b2),
        originals_of(b1) == assigned(originals_of(b0)),
        assigned(originals_of(b1)) == originals_of(b1),
        !(assigned(originals_of(b0))[i] matches Some(u) && !u.fits_exif()),
    ensures
        r2 matches Ok(v2) && r1 matches Ok(v1) && v2@.len() == v1@.len() && match v1@[i] {
            Ok((first, _)) => v2@[i] matches Ok((second, changed)) && !changed && second.old@
                == first.new@ && second.new@ == first.new@,
            Err(e) => v2@[i] == Err::<(FileOutcome, bool), ExifError>(e),
        } && b2.len() == b1.len() && b2[i]@ == b1[i]@,
{
    let v1 = r1->Ok_0;
    let v2 = r2->Ok_0;
    let o0 = originals_of(b0);
    let a0 = assigned(o0);
    let o1 = originals_of(b1);
    lemma_run_file_facts(b0, r1, b1, i);
    lemma_run_file_facts(b1, r2, b2, i);
    assert(o1[i] == a0[i]);
    assert(o0[i] == original_fields(b0[i]@));
    assert(o1[i] == original_fields(b1[i]@));
    match original_time(b0[i]@) {
        Err(e) => {
            assert(b1[i] == b0[i]);
        },
        Ok(_) => {
            lemma_assigned_not_earlier(o0);
            assert(o0[i] is Some);
            let t = a0[i]->0;
            assert(original_time(b1[i]@) is Ok);
            lemma_rerun_file(b0[i]@, t, v1@[i], b1[i]@, v2@[i], b2[i]@);
        },
    }
}
} // verus!
