//! A mathematical model of the target directory, and proofs of what a
//! rotation plan does to it.
//!
//! The directory is a map from filename to file bytes. Applying a rotation
//! plan to a well-formed file set keeps the set's invariant: the occupied
//! index slots stay contiguous from 0, the file count after a rotation is
//! the old count plus one, bounded by the retained count, slot 0 is the
//! fresh empty live file, every older file moved up exactly one slot with
//! its bytes kept (retired, for the file that left the live slot), and
//! filenames outside the naming scheme are never touched.

use vstd::prelude::*;

use crate::names::{
    spec_logfile_index, spec_logfile_name, spec_renamed, lemma_renamed_parses,
    lemma_logfile_name_roundtrip, lemma_pattern_parses, log_tail, log_tail_ok,
    decimal_digits,
};
use crate::plan::{
    FileOpModel, spec_plan, spec_found_max, spec_delete_ops, spec_index_ops, spec_shift_down,
    spec_shift_one, zstd_suffix,
};
use crate::retire::{spec_retired, zstd_frame};
use crate::Compression;

verus! {

/// What one file operation does to the directory.
///
/// A rename or compression whose source is missing leaves the directory
/// unchanged (the real call would fail and stop the rotation); creation
/// lands an empty file. The proofs below only ever apply operations whose
/// sources exist and whose created file is fresh.
pub open spec fn apply_op(
    dir: Map<Seq<char>, Seq<u8>>,
    op: FileOpModel,
) -> Map<Seq<char>, Seq<u8>> {
    match op {
        FileOpModel::Delete { filename } => dir.remove(filename),
        FileOpModel::Rename { from, to } => if dir.dom().contains(from) {
            dir.remove(from).insert(to, dir[from])
        } else {
            dir
        },
        FileOpModel::Compress { from, to, level } => if dir.dom().contains(from) {
            dir.remove(from).insert(to, zstd_frame(dir[from], level))
        } else {
            dir
        },
        FileOpModel::Create { filename } => dir.insert(filename, Seq::empty()),
    }
}

/// The directory after a plan ran front to back.
pub open spec fn apply_plan(
    dir: Map<Seq<char>, Seq<u8>>,
    ops: Seq<FileOpModel>,
) -> Map<Seq<char>, Seq<u8>>
    decreases ops.len(),
{
    if ops.len() == 0 {
        dir
    } else {
        apply_plan(apply_op(dir, ops.first()), ops.drop_first())
    }
}

/// A well-formed file set: `names[i]` is the one filename occupying index
/// slot `i`, slots are contiguous from 0, and no other filename in the
/// directory matches the scheme.
pub open spec fn dir_wf(
    dir: Map<Seq<char>, Seq<u8>>,
    base: Seq<char>,
    names: Seq<Seq<char>>,
) -> bool {
    &&& forall|i: int| 0 <= i < names.len() ==> dir.dom().contains(#[trigger] names[i])
    &&& forall|i: int|
        0 <= i < names.len() ==> spec_logfile_index(base, #[trigger] names[i]) == Some(i)
    &&& forall|f: Seq<char>|
        dir.dom().contains(f) && #[trigger] spec_logfile_index(base, f) is Some ==> names.contains(
            f,
        )
}

/// `listing` enumerates the directory: every filename once, in any order.
pub open spec fn listing_of(listing: Seq<Seq<char>>, dir: Map<Seq<char>, Seq<u8>>) -> bool {
    &&& listing.no_duplicates()
    &&& forall|f: Seq<char>| #[trigger] listing.contains(f) <==> dir.dom().contains(f)
}

proof fn lemma_apply_plan_concat(dir: Map<Seq<char>, Seq<u8>>, a: Seq<FileOpModel>, b: Seq<FileOpModel>)
    ensures
        apply_plan(dir, a + b) == apply_plan(apply_plan(dir, a), b),
    decreases a.len(),
{
    if a.len() == 0 {
        assert(a + b =~= b);
    } else {
        assert((a + b).first() == a.first());
        assert((a + b).drop_first() =~= a.drop_first() + b);
        lemma_apply_plan_concat(apply_op(dir, a.first()), a.drop_first(), b);
    }
}

proof fn lemma_apply_plan_one(dir: Map<Seq<char>, Seq<u8>>, op: FileOpModel)
    ensures
        apply_plan(dir, seq![op]) == apply_op(dir, op),
{
    assert(seq![op].drop_first() =~= Seq::<FileOpModel>::empty());
    assert(apply_plan(apply_op(dir, op), Seq::<FileOpModel>::empty()) == apply_op(dir, op));
}

proof fn lemma_found_max_none(base: Seq<char>, files: Seq<Seq<char>>)
    requires
        forall|f: Seq<char>| files.contains(f) ==> #[trigger] spec_logfile_index(base, f) is None,
    ensures
        spec_found_max(base, files) is None,
    decreases files.len(),
{
    if files.len() > 0 {
        assert(files.contains(files.last()));
        assert(forall|f: Seq<char>|
            files.drop_last().contains(f) ==> files.contains(f)) by {
            assert(forall|i: int|
                0 <= i < files.drop_last().len() ==> files.drop_last()[i] == files[i]);
        }
        lemma_found_max_none(base, files.drop_last());
    }
}

proof fn lemma_found_max_upper(base: Seq<char>, files: Seq<Seq<char>>, bound: int)
    requires
        forall|f: Seq<char>|
            files.contains(f) && #[trigger] spec_logfile_index(base, f) is Some
                ==> spec_logfile_index(base, f).unwrap() < bound,
    ensures
        match spec_found_max(base, files) {
            Some(m) => m < bound,
            None => true,
        },
    decreases files.len(),
{
    if files.len() > 0 {
        assert(files.contains(files.last()));
        assert(forall|f: Seq<char>|
            files.drop_last().contains(f) ==> files.contains(f)) by {
            assert(forall|i: int|
                0 <= i < files.drop_last().len() ==> files.drop_last()[i] == files[i]);
        }
        lemma_found_max_upper(base, files.drop_last(), bound);
    }
}

proof fn lemma_found_max_lower(base: Seq<char>, files: Seq<Seq<char>>, g: Seq<char>, v: int)
    requires
        files.contains(g),
        spec_logfile_index(base, g) == Some(v),
    ensures
        match spec_found_max(base, files) {
            Some(m) => m >= v,
            None => false,
        },
    decreases files.len(),
{
    if files.last() == g {
    } else {
        assert(files.drop_last().contains(g)) by {
            let i = choose|i: int| 0 <= i < files.len() && files[i] == g;
            assert(files.drop_last()[i] == g);
        }
        lemma_found_max_lower(base, files.drop_last(), g, v);
    }
}

/// The survey of a listing of a well-formed file set finds the highest
/// occupied slot: the file count minus one, or nothing when the set is
/// empty.
proof fn lemma_found_max_of_wf(
    dir: Map<Seq<char>, Seq<u8>>,
    base: Seq<char>,
    names: Seq<Seq<char>>,
    listing: Seq<Seq<char>>,
)
    requires
        dir_wf(dir, base, names),
        listing_of(listing, dir),
    ensures
        names.len() == 0 ==> spec_found_max(base, listing) is None,
        names.len() > 0 ==> spec_found_max(base, listing) == Some(names.len() - 1),
{
    let count = names.len() as int;
    assert forall|f: Seq<char>|
        listing.contains(f) && #[trigger] spec_logfile_index(base, f) is Some implies
        spec_logfile_index(base, f).unwrap() < count by {
        assert(dir.dom().contains(f));
        assert(names.contains(f));
        let i = choose|i: int| 0 <= i < names.len() && names[i] == f;
        assert(spec_logfile_index(base, names[i]) == Some(i));
    }
    lemma_found_max_upper(base, listing, count);
    if names.len() == 0 {
        assert forall|f: Seq<char>| listing.contains(f) implies #[trigger] spec_logfile_index(
            base,
            f,
        ) is None by {
            assert(dir.dom().contains(f));
            if spec_logfile_index(base, f) is Some {
                assert(names.contains(f));
            }
        }
        lemma_found_max_none(base, listing);
    }
    if names.len() > 0 {
        assert(dir.dom().contains(names[count - 1]));
        assert(listing.contains(names[count - 1]));
        lemma_found_max_lower(base, listing, names[count - 1], count - 1);
    }
}

/// Whether a filename is listed and occupies a slot in `[lo, hi]`: exactly
/// the files the eviction step removes.
pub open spec fn evicted(base: Seq<char>, files: Seq<Seq<char>>, lo: int, hi: int, f: Seq<char>) -> bool {
    files.contains(f) && match spec_logfile_index(base, f) {
        Some(v) => lo <= v <= hi,
        None => false,
    }
}

/// Running the eviction steps removes exactly the listed files whose slot
/// lies in `[lo, hi]` and touches nothing else.
proof fn lemma_apply_deletes(
    dir: Map<Seq<char>, Seq<u8>>,
    base: Seq<char>,
    files: Seq<Seq<char>>,
    lo: int,
    hi: int,
)
    ensures
        forall|f: Seq<char>|
            #[trigger] apply_plan(dir, spec_delete_ops(base, files, lo, hi)).dom().contains(f)
                <==> (dir.dom().contains(f) && !evicted(base, files, lo, hi, f)),
        forall|f: Seq<char>|
            apply_plan(dir, spec_delete_ops(base, files, lo, hi)).dom().contains(f) ==> #[trigger] apply_plan(
                dir,
                spec_delete_ops(base, files, lo, hi),
            )[f] == dir[f],
    decreases files.len(),
{
    if files.len() == 0 {
        assert(spec_delete_ops(base, files, lo, hi) == Seq::<FileOpModel>::empty());
        assert(forall|f: Seq<char>| !files.contains(f));
    } else {
        let prefix = files.drop_last();
        let last = files.last();
        lemma_apply_deletes(dir, base, prefix, lo, hi);
        let d1 = apply_plan(dir, spec_delete_ops(base, prefix, lo, hi));
        let tail_ops = match spec_logfile_index(base, last) {
            Some(i) => if lo <= i <= hi {
                seq![FileOpModel::Delete { filename: last }]
            } else {
                Seq::<FileOpModel>::empty()
            },
            None => Seq::<FileOpModel>::empty(),
        };
        lemma_apply_plan_concat(dir, spec_delete_ops(base, prefix, lo, hi), tail_ops);
        assert(spec_delete_ops(base, files, lo, hi) == spec_delete_ops(base, prefix, lo, hi)
            + tail_ops);
        if tail_ops.len() > 0 {
            lemma_apply_plan_one(d1, tail_ops[0]);
        }
        assert(forall|f: Seq<char>|
            #[trigger] files.contains(f) <==> prefix.contains(f) || f == last) by {
            assert forall|f: Seq<char>| #[trigger] files.contains(f) implies prefix.contains(f)
                || f == last by {
                let i = choose|i: int| 0 <= i < files.len() && files[i] == f;
                if i < files.len() - 1 {
                    assert(prefix[i] == f);
                }
            }
            assert forall|f: Seq<char>| prefix.contains(f) || f == last implies #[trigger] files
                .contains(f) by {
                if prefix.contains(f) {
                    let i = choose|i: int| 0 <= i < prefix.len() && prefix[i] == f;
                    assert(files[i] == f);
                } else {
                    assert(files[files.len() - 1] == f);
                }
            }
        }
    }
}

/// The filename that occupies slot `j` after the shift phase, for `j >= 1`:
/// the file from slot `j - 1`, renamed; slot 1's name reflects the retire
/// transform.
pub open spec fn spec_shifted_name(
    base: Seq<char>,
    c: Compression,
    names1: Seq<Seq<char>>,
    j: int,
) -> Seq<char> {
    if j == 1 {
        match c {
            Compression::Uncompressed => spec_renamed(base, names1[0], 1),
            Compression::Zstd { .. } => spec_logfile_name(base, 1) + zstd_suffix(),
        }
    } else {
        spec_renamed(base, names1[j - 1], j as nat)
    }
}

/// The bytes that slot `j` holds after the shift phase: slot `j - 1`'s old
/// bytes, put through the retire transform for the file that left the live
/// slot.
pub open spec fn spec_shifted_content(
    c: Compression,
    dir: Map<Seq<char>, Seq<u8>>,
    names1: Seq<Seq<char>>,
    j: int,
) -> Seq<u8> {
    if j == 1 {
        spec_retired(c, dir[names1[0]])
    } else {
        dir[names1[j - 1]]
    }
}

/// A filename the shift phase for slots `0..=hi` neither reads nor writes:
/// one outside the scheme, or one whose slot lies above `hi + 1`.
pub open spec fn untouched_by_shift(base: Seq<char>, hi: int, f: Seq<char>) -> bool {
    match spec_logfile_index(base, f) {
        Some(v) => v > hi + 1,
        None => true,
    }
}

proof fn lemma_shifted_name_parses(base: Seq<char>, c: Compression, names1: Seq<Seq<char>>, j: int)
    requires
        1 <= j <= usize::MAX,
        j - 1 < names1.len(),
        spec_logfile_index(base, names1[j - 1]) is Some,
    ensures
        spec_logfile_index(base, spec_shifted_name(base, c, names1, j)) == Some(j),
{
    if j == 1 && c is Zstd {
        let t = log_tail() + zstd_suffix();
        assert(t.len() == 9);
        assert(t.take(5) =~= log_tail().push('.'));
        assert(log_tail_ok(t));
        lemma_pattern_parses(base, 1, t);
        assert(spec_logfile_name(base, 1) + zstd_suffix() =~= base + seq!['.'] + decimal_digits(1)
            + t);
    } else {
        lemma_renamed_parses(base, names1[j - 1], j as nat);
    }
}

proof fn lemma_index_ops_none(base: Seq<char>, c: Compression, files: Seq<Seq<char>>, i: int)
    requires
        forall|f: Seq<char>|
            files.contains(f) ==> #[trigger] spec_logfile_index(base, f) != Some(i),
    ensures
        spec_index_ops(base, c, files, i) == Seq::<FileOpModel>::empty(),
    decreases files.len(),
{
    if files.len() > 0 {
        assert(files.contains(files.last()));
        assert(forall|f: Seq<char>|
            files.drop_last().contains(f) ==> files.contains(f)) by {
            assert(forall|t: int|
                0 <= t < files.drop_last().len() ==> files.drop_last()[t] == files[t]);
        }
        lemma_index_ops_none(base, c, files.drop_last(), i);
        assert(spec_index_ops(base, c, files, i) =~= Seq::<FileOpModel>::empty());
    }
}

proof fn lemma_index_ops_single(
    base: Seq<char>,
    c: Compression,
    files: Seq<Seq<char>>,
    i: int,
    g: Seq<char>,
)
    requires
        files.no_duplicates(),
        files.contains(g),
        spec_logfile_index(base, g) == Some(i),
        forall|f: Seq<char>|
            files.contains(f) && #[trigger] spec_logfile_index(base, f) == Some(i) ==> f == g,
    ensures
        spec_index_ops(base, c, files, i) == seq![spec_shift_one(base, c, g, i)],
    decreases files.len(),
{
    let prefix = files.drop_last();
    let last = files.last();
    assert(files.contains(last));
    assert(forall|f: Seq<char>| prefix.contains(f) ==> files.contains(f)) by {
        assert(forall|t: int| 0 <= t < prefix.len() ==> prefix[t] == files[t]);
    }
    if last == g {
        assert forall|f: Seq<char>| prefix.contains(f) implies #[trigger] spec_logfile_index(
            base,
            f,
        ) != Some(i) by {
            if spec_logfile_index(base, f) == Some(i) {
                assert(f == g);
                let t = choose|t: int| 0 <= t < prefix.len() && prefix[t] == f;
                assert(files[t] == g && files[files.len() - 1] == g);
            }
        }
        lemma_index_ops_none(base, c, prefix, i);
        assert(spec_index_ops(base, c, files, i) =~= seq![spec_shift_one(base, c, g, i)]);
    } else {
        assert(spec_logfile_index(base, last) != Some(i));
        assert(prefix.contains(g)) by {
            let t = choose|t: int| 0 <= t < files.len() && files[t] == g;
            assert(files[t] == g);
            assert(t < files.len() - 1);
            assert(prefix[t] == g);
        }
        assert(prefix.no_duplicates()) by {
            assert(forall|t: int| 0 <= t < prefix.len() ==> prefix[t] == files[t]);
        }
        lemma_index_ops_single(base, c, prefix, i, g);
        assert(spec_index_ops(base, c, files, i) =~= seq![spec_shift_one(base, c, g, i)]);
    }
}

/// What the shift phase for slots `0..=hi` does: every slot's file moves up
/// exactly one, slot 1 receives the retired live file, and every filename
/// outside those slots is untouched.
proof fn lemma_apply_shift_down(
    dir: Map<Seq<char>, Seq<u8>>,
    base: Seq<char>,
    c: Compression,
    files: Seq<Seq<char>>,
    names1: Seq<Seq<char>>,
    hi: int,
)
    requires
        0 <= hi,
        hi + 1 <= usize::MAX,
        hi < names1.len(),
        files.no_duplicates(),
        forall|j: int| 0 <= j <= hi ==> files.contains(#[trigger] names1[j]),
        forall|j: int|
            0 <= j <= hi ==> spec_logfile_index(base, #[trigger] names1[j]) == Some(j),
        forall|j: int| 0 <= j <= hi ==> dir.dom().contains(#[trigger] names1[j]),
        forall|f: Seq<char>|
            files.contains(f) && #[trigger] spec_logfile_index(base, f) is Some
                && spec_logfile_index(base, f).unwrap() <= hi ==> f == names1[spec_logfile_index(
                base,
                f,
            ).unwrap()],
        forall|f: Seq<char>|
            dir.dom().contains(f) && #[trigger] spec_logfile_index(base, f) is Some
                && spec_logfile_index(base, f).unwrap() <= hi + 1 ==> (spec_logfile_index(base, f).unwrap()
                <= hi && f == names1[spec_logfile_index(base, f).unwrap()]),
    ensures
        forall|j: int|
            1 <= j <= hi + 1 ==> apply_plan(dir, spec_shift_down(base, c, files, hi, 0)).dom()
                .contains(#[trigger] spec_shifted_name(base, c, names1, j)),
        forall|j: int|
            1 <= j <= hi + 1 ==> apply_plan(dir, spec_shift_down(base, c, files, hi, 0))[
                #[trigger] spec_shifted_name(base, c, names1, j)
            ] == spec_shifted_content(c, dir, names1, j),
        forall|f: Seq<char>|
            apply_plan(dir, spec_shift_down(base, c, files, hi, 0)).dom().contains(f)
                && !untouched_by_shift(base, hi, f) ==> (1 <= #[trigger] spec_logfile_index(
                base,
                f,
            ).unwrap() && f == spec_shifted_name(
                base,
                c,
                names1,
                spec_logfile_index(base, f).unwrap(),
            )),
        forall|f: Seq<char>|
            #[trigger] untouched_by_shift(base, hi, f) ==> (apply_plan(
                dir,
                spec_shift_down(base, c, files, hi, 0),
            ).dom().contains(f) <==> dir.dom().contains(f)),
        forall|f: Seq<char>|
            #[trigger] untouched_by_shift(base, hi, f) && dir.dom().contains(f) ==> apply_plan(
                dir,
                spec_shift_down(base, c, files, hi, 0),
            )[f] == dir[f],
    decreases hi,
{
    let g = names1[hi];
    let sd = spec_shift_down(base, c, files, hi, 0);
    let d2full = apply_plan(dir, sd);
    assert(spec_logfile_index(base, g) == Some(hi));
    assert forall|f: Seq<char>|
        files.contains(f) && #[trigger] spec_logfile_index(base, f) == Some(hi) implies f
        == g by {
        assert(spec_logfile_index(base, f).unwrap() == hi);
    }
    lemma_index_ops_single(base, c, files, hi, g);
    let op = spec_shift_one(base, c, g, hi);
    assert(sd == spec_index_ops(base, c, files, hi) + spec_shift_down(base, c, files, hi - 1, 0));
    lemma_apply_plan_concat(dir, spec_index_ops(base, c, files, hi), spec_shift_down(
        base,
        c,
        files,
        hi - 1,
        0,
    ));
    lemma_apply_plan_one(dir, op);
    let d1 = apply_op(dir, op);
    assert(apply_plan(dir, spec_index_ops(base, c, files, hi)) == d1);
    let tgt = spec_shifted_name(base, c, names1, hi + 1);
    lemma_shifted_name_parses(base, c, names1, hi + 1);
    assert(spec_logfile_index(base, tgt) == Some(hi + 1));
    assert(dir.dom().contains(g));
    let x = spec_shifted_content(c, dir, names1, hi + 1);
    assert(d1 == dir.remove(g).insert(tgt, x)) by {
        if hi == 0 {
            match c {
                Compression::Uncompressed => {
                    assert(op == (FileOpModel::Rename { from: g, to: spec_renamed(base, g, 1) }));
                }
                Compression::Zstd { level } => {
                    assert(op == (FileOpModel::Compress {
                        from: g,
                        to: spec_logfile_name(base, 1) + zstd_suffix(),
                        level: level as int,
                    }));
                }
            }
        } else {
            assert(op == (FileOpModel::Rename {
                from: g,
                to: spec_renamed(base, g, (hi + 1) as nat),
            }));
        }
    }
    assert(g != tgt);
    if hi == 0 {
        assert(spec_shift_down(base, c, files, -1, 0) == Seq::<FileOpModel>::empty());
        assert(d2full == d1);
        assert forall|f: Seq<char>|
            d2full.dom().contains(f) && !untouched_by_shift(base, 0, f) implies (1
            <= #[trigger] spec_logfile_index(base, f).unwrap() && f == spec_shifted_name(
            base,
            c,
            names1,
            spec_logfile_index(base, f).unwrap(),
        )) by {
            if f != tgt {
                assert(dir.dom().contains(f) && f != g);
                let v = spec_logfile_index(base, f).unwrap();
                assert(v <= 0 && f == names1[v]);
                assert(f == g);
            }
        }
    } else {
        assert forall|j: int| 0 <= j <= hi - 1 implies d1.dom().contains(
            #[trigger] names1[j],
        ) by {
            assert(spec_logfile_index(base, names1[j]) == Some(j));
            assert(names1[j] != g);
            assert(names1[j] != tgt);
        }
        assert forall|f: Seq<char>|
            d1.dom().contains(f) && #[trigger] spec_logfile_index(base, f) is Some
                && spec_logfile_index(base, f).unwrap() <= hi implies (spec_logfile_index(
            base,
            f,
        ).unwrap() <= hi - 1 && f == names1[spec_logfile_index(base, f).unwrap()]) by {
            assert(f != tgt);
            assert(dir.dom().contains(f));
            assert(f != g);
        }
        lemma_apply_shift_down(d1, base, c, files, names1, hi - 1);
        let d2 = apply_plan(d1, spec_shift_down(base, c, files, hi - 1, 0));
        assert(d2full == d2);
        // Slot `hi + 1` was filled before the inner shifts and stays put.
        assert(untouched_by_shift(base, hi - 1, tgt));
        assert(d2.dom().contains(tgt) && d2[tgt] == x);
        // The inner shifts read the old contents, which the first step left
        // in place.
        assert forall|j: int| 1 <= j <= hi implies spec_shifted_content(c, d1, names1, j)
            == spec_shifted_content(c, dir, names1, j) by {
            assert(spec_logfile_index(base, names1[j - 1]) == Some(j - 1));
            assert(names1[j - 1] != g);
            assert(names1[j - 1] != tgt);
            assert(d1[names1[j - 1]] == dir[names1[j - 1]]);
        }
        assert forall|j: int| 1 <= j <= hi + 1 implies (d2full.dom().contains(
            #[trigger] spec_shifted_name(base, c, names1, j),
        ) && d2full[spec_shifted_name(base, c, names1, j)] == spec_shifted_content(
            c,
            dir,
            names1,
            j,
        )) by {
            if j <= hi {
                assert(d2.dom().contains(spec_shifted_name(base, c, names1, j)));
                assert(d2[spec_shifted_name(base, c, names1, j)] == spec_shifted_content(
                    c,
                    d1,
                    names1,
                    j,
                ));
            }
        }
        assert forall|f: Seq<char>|
            d2full.dom().contains(f) && !untouched_by_shift(base, hi, f) implies (1
            <= #[trigger] spec_logfile_index(base, f).unwrap() && f == spec_shifted_name(
            base,
            c,
            names1,
            spec_logfile_index(base, f).unwrap(),
        )) by {
            let v = spec_logfile_index(base, f).unwrap();
            if v <= hi {
                assert(!untouched_by_shift(base, hi - 1, f));
            } else {
                assert(v == hi + 1);
                assert(untouched_by_shift(base, hi - 1, f));
                assert(d1.dom().contains(f));
                if f != tgt {
                    assert(dir.dom().contains(f) && f != g);
                    assert(spec_logfile_index(base, f).unwrap() <= hi);
                }
            }
        }
        assert forall|f: Seq<char>| #[trigger] untouched_by_shift(base, hi, f) implies ((
        d2full.dom().contains(f) <==> dir.dom().contains(f)) && (dir.dom().contains(f)
            ==> d2full[f] == dir[f])) by {
            assert(untouched_by_shift(base, hi - 1, f));
            assert(f != g);
            assert(f != tgt);
            assert(d1.dom().contains(f) <==> dir.dom().contains(f));
        }
    }
}

/// What one rotation does to a well-formed file set, whatever order the
/// directory was listed in: the set stays well formed and contiguous, the
/// file count becomes the old count plus one but never more than the
/// retained count, slot 0 is the fresh empty live file, every surviving
/// file moved up exactly one slot with its bytes kept (retired, for the
/// file that left the live slot), and filenames outside the naming scheme
/// are untouched.
pub proof fn lemma_rotation_step(
    dir: Map<Seq<char>, Seq<u8>>,
    base: Seq<char>,
    c: Compression,
    max_index: int,
    names: Seq<Seq<char>>,
    listing: Seq<Seq<char>>,
) -> (names2: Seq<Seq<char>>)
    requires
        dir_wf(dir, base, names),
        listing_of(listing, dir),
        0 <= max_index < usize::MAX,
    ensures
        names2.len() == (if names.len() as int + 1 <= max_index + 1 {
            names.len() as int + 1
        } else {
            max_index + 1
        }),
        dir_wf(apply_plan(dir, spec_plan(base, max_index, c, listing)), base, names2),
        names2[0] == spec_logfile_name(base, 0),
        apply_plan(dir, spec_plan(base, max_index, c, listing))[names2[0]] == Seq::<u8>::empty(),
        forall|j: int|
            1 <= j < names2.len() ==> #[trigger] names2[j] == spec_shifted_name(base, c, names, j),
        forall|j: int|
            1 <= j < names2.len() ==> apply_plan(dir, spec_plan(base, max_index, c, listing))[
                #[trigger] names2[j]
            ] == spec_shifted_content(c, dir, names, j),
        forall|f: Seq<char>|
            (#[trigger] spec_logfile_index(base, f)) is None ==> ((apply_plan(
                dir,
                spec_plan(base, max_index, c, listing),
            ).dom().contains(f) <==> dir.dom().contains(f)) && (dir.dom().contains(f)
                ==> apply_plan(dir, spec_plan(base, max_index, c, listing))[f] == dir[f])),
{
    let count = names.len() as int;
    let l0 = spec_logfile_name(base, 0);
    lemma_logfile_name_roundtrip(base, 0);
    lemma_found_max_of_wf(dir, base, names, listing);
    let plan = spec_plan(base, max_index, c, listing);
    let createop = FileOpModel::Create { filename: l0 };
    if count == 0 {
        lemma_apply_plan_one(dir, createop);
        let dir2 = dir.insert(l0, Seq::<u8>::empty());
        assert(plan == seq![createop]);
        assert(apply_plan(dir, plan) == dir2);
        let n2 = seq![l0];
        assert(n2[0] == l0);
        assert forall|f: Seq<char>|
            dir2.dom().contains(f) && #[trigger] spec_logfile_index(base, f) is Some implies n2
            .contains(f) by {
            if f != l0 {
                assert(dir.dom().contains(f));
                assert(names.contains(f));
                let i = choose|i: int| 0 <= i < names.len() && names[i] == f;
            } else {
                assert(n2[0] == f);
            }
        }
        assert(dir_wf(dir2, base, n2));
        n2
    } else {
        let m = count - 1;
        assert(spec_found_max(base, listing) == Some(m));
        let deletes = if m >= max_index {
            spec_delete_ops(base, listing, max_index, m)
        } else {
            Seq::<FileOpModel>::empty()
        };
        let new_max_plan: int = if m >= max_index {
            if max_index == 0 {
                0
            } else {
                max_index - 1
            }
        } else {
            m
        };
        let shifts = if max_index != 0 {
            spec_shift_down(base, c, listing, new_max_plan, 0)
        } else {
            Seq::<FileOpModel>::empty()
        };
        assert(plan == deletes + shifts + seq![createop]);
        lemma_apply_plan_concat(dir, deletes, shifts);
        lemma_apply_plan_concat(dir, deletes + shifts, seq![createop]);
        let d1 = apply_plan(dir, deletes);
        let ds = apply_plan(d1, shifts);
        assert(ds == apply_plan(dir, deletes + shifts));
        lemma_apply_plan_one(ds, createop);
        let dir2 = ds.insert(l0, Seq::<u8>::empty());
        assert(apply_plan(dir, plan) == dir2);
        let count1: int = if m >= max_index {
            max_index
        } else {
            count
        };
        if m >= max_index {
            lemma_apply_deletes(dir, base, listing, max_index, m);
        }
        // After the eviction step, exactly slots 0 .. count1 survive, with
        // their bytes unchanged.
        assert forall|j: int| 0 <= j < count1 implies (d1.dom().contains(#[trigger] names[j])
            && d1[names[j]] == dir[names[j]]) by {
            assert(dir.dom().contains(names[j]));
            if m >= max_index {
                assert(spec_logfile_index(base, names[j]) == Some(j));
                assert(!evicted(base, listing, max_index, m, names[j]));
            }
        }
        assert forall|f: Seq<char>|
            d1.dom().contains(f) && #[trigger] spec_logfile_index(base, f) is Some implies (
        spec_logfile_index(base, f).unwrap() < count1 && f == names[spec_logfile_index(
            base,
            f,
        ).unwrap()]) by {
            if m >= max_index {
                assert(dir.dom().contains(f));
            }
            assert(dir.dom().contains(f));
            assert(names.contains(f));
            let i = choose|i: int| 0 <= i < names.len() && names[i] == f;
            assert(spec_logfile_index(base, names[i]) == Some(i));
            let v = spec_logfile_index(base, f).unwrap();
            assert(v == i);
            if m >= max_index {
                assert(listing.contains(f));
                assert(!evicted(base, listing, max_index, m, f));
                assert(v < max_index);
            }
        }
        assert forall|f: Seq<char>|
            (#[trigger] spec_logfile_index(base, f)) is None implies ((d1.dom().contains(f)
                <==> dir.dom().contains(f)) && (dir.dom().contains(f) ==> d1[f] == dir[f])) by {
            if m >= max_index {
                assert(!evicted(base, listing, max_index, m, f));
            }
        }
        let count2: int = count1 + 1;
        if max_index == 0 {
            assert(count1 == 0);
            assert(ds == d1);
            let n2 = seq![l0];
            assert(n2[0] == l0);
            assert forall|f: Seq<char>|
                dir2.dom().contains(f) && #[trigger] spec_logfile_index(base, f) is Some implies
                n2.contains(f) by {
                if f != l0 {
                    assert(ds.dom().contains(f));
                    assert(spec_logfile_index(base, f).unwrap() < 0);
                } else {
                    assert(n2[0] == f);
                }
            }
            assert(dir_wf(dir2, base, n2));
            n2
        } else {
            let hi = count1 - 1;
            assert(new_max_plan == hi);
            assert(hi < names.len());
            lemma_apply_shift_down(d1, base, c, listing, names, hi);
            let n2 = Seq::new(count2 as nat, |j: int| if j == 0 {
                l0
            } else {
                spec_shifted_name(base, c, names, j)
            });
            assert(n2[0] == l0);
            assert forall|j: int| 1 <= j <= hi + 1 implies spec_logfile_index(
                base,
                #[trigger] spec_shifted_name(base, c, names, j),
            ) == Some(j) by {
                lemma_shifted_name_parses(base, c, names, j);
            }
            // The shifted contents read from the post-eviction directory are
            // the original bytes.
            assert forall|j: int| 1 <= j <= hi + 1 implies spec_shifted_content(c, d1, names, j)
                == spec_shifted_content(c, dir, names, j) by {
                assert(d1[names[j - 1]] == dir[names[j - 1]]);
            }
            assert forall|j: int| 0 <= j < n2.len() implies dir2.dom().contains(
                #[trigger] n2[j],
            ) by {
                if j >= 1 {
                    assert(ds.dom().contains(spec_shifted_name(base, c, names, j)));
                    assert(spec_logfile_index(base, n2[j]) == Some(j));
                    assert(n2[j] != l0);
                }
            }
            assert forall|j: int| 0 <= j < n2.len() implies spec_logfile_index(
                base,
                #[trigger] n2[j],
            ) == Some(j) by {}
            assert forall|f: Seq<char>|
                dir2.dom().contains(f) && #[trigger] spec_logfile_index(base, f) is Some implies
                n2.contains(f) by {
                if f == l0 {
                    assert(n2[0] == f);
                } else {
                    assert(ds.dom().contains(f));
                    let v = spec_logfile_index(base, f).unwrap();
                    if v <= hi + 1 {
                        assert(!untouched_by_shift(base, hi, f));
                        assert(1 <= v && f == spec_shifted_name(base, c, names, v));
                        assert(n2[v] == f);
                    } else {
                        assert(untouched_by_shift(base, hi, f));
                        assert(d1.dom().contains(f));
                        assert(spec_logfile_index(base, f).unwrap() < count1);
                    }
                }
            }
            assert(dir_wf(dir2, base, n2));
            assert(dir2[l0] == Seq::<u8>::empty());
            assert forall|j: int| 1 <= j < n2.len() implies dir2[#[trigger] n2[j]]
                == spec_shifted_content(c, dir, names, j) by {
                assert(n2[j] == spec_shifted_name(base, c, names, j));
                assert(n2[j] != l0);
                assert(ds[n2[j]] == spec_shifted_content(c, d1, names, j));
            }
            assert forall|f: Seq<char>|
                (#[trigger] spec_logfile_index(base, f)) is None implies ((dir2.dom().contains(f)
                    <==> dir.dom().contains(f)) && (dir.dom().contains(f) ==> dir2[f]
                    == dir[f])) by {
                assert(untouched_by_shift(base, hi, f));
                assert(f != l0);
                assert((ds.dom().contains(f) <==> d1.dom().contains(f)) && (d1.dom().contains(f)
                    ==> ds[f] == d1[f]));
            }
            n2
        }
    }
}

/// The directory after a sequence of rotations, one per listing, oldest
/// rotation first.
pub open spec fn rotated_dirs(
    dir0: Map<Seq<char>, Seq<u8>>,
    base: Seq<char>,
    c: Compression,
    max_index: int,
    listings: Seq<Seq<Seq<char>>>,
) -> Map<Seq<char>, Seq<u8>>
    decreases listings.len(),
{
    if listings.len() == 0 {
        dir0
    } else {
        apply_plan(
            rotated_dirs(dir0, base, c, max_index, listings.drop_last()),
            spec_plan(base, max_index, c, listings.last()),
        )
    }
}

/// Every listing of the sequence enumerates the directory as it stands when
/// its rotation runs.
pub open spec fn listings_ok(
    dir0: Map<Seq<char>, Seq<u8>>,
    base: Seq<char>,
    c: Compression,
    max_index: int,
    listings: Seq<Seq<Seq<char>>>,
) -> bool {
    forall|k: int|
        0 <= k < listings.len() ==> listing_of(
            #[trigger] listings[k],
            rotated_dirs(dir0, base, c, max_index, listings.take(k)),
        )
}

/// For every positive retained count `N = max_index + 1` and any sequence
/// of `M` rotations starting from a directory with no matching files, the
/// file set after the `M`-th rotation is well formed and holds exactly
/// `min(M, N)` files — so it never holds more than `N`. Applying this to
/// every prefix of the sequence bounds the set after each rotation.
pub proof fn lemma_rotation_count(
    dir0: Map<Seq<char>, Seq<u8>>,
    base: Seq<char>,
    c: Compression,
    max_index: int,
    listings: Seq<Seq<Seq<char>>>,
) -> (names_out: Seq<Seq<char>>)
    requires
        dir_wf(dir0, base, Seq::empty()),
        0 <= max_index < usize::MAX,
        listings_ok(dir0, base, c, max_index, listings),
    ensures
        dir_wf(rotated_dirs(dir0, base, c, max_index, listings), base, names_out),
        names_out.len() == (if listings.len() == 0 {
            0
        } else if listings.len() as int <= max_index + 1 {
            listings.len() as int
        } else {
            max_index + 1
        }),
        names_out.len() <= max_index + 1,
    decreases listings.len(),
{
    if listings.len() == 0 {
        Seq::<Seq<char>>::empty()
    } else {
        assert forall|k: int| 0 <= k < listings.drop_last().len() implies listing_of(
            #[trigger] listings.drop_last()[k],
            rotated_dirs(dir0, base, c, max_index, listings.drop_last().take(k)),
        ) by {
            assert(listings.drop_last()[k] == listings[k]);
            assert(listings.drop_last().take(k) =~= listings.take(k));
        }
        let prev = lemma_rotation_count(dir0, base, c, max_index, listings.drop_last());
        let dprev = rotated_dirs(dir0, base, c, max_index, listings.drop_last());
        assert(listing_of(listings.last(), dprev)) by {
            assert(listings[listings.len() - 1] == listings.last());
            assert(listings.take(listings.len() - 1) =~= listings.drop_last());
        }
        let cur = lemma_rotation_step(dprev, base, c, max_index, prev, listings.last());
        cur
    }
}

/// A retired file's bytes survive any number of later rotations: the file
/// that occupies slot `v` moves up one slot per rotation, byte for byte,
/// and is still there as long as its slot has not passed the retained
/// bound. Together with the recovery contract of the retire transform this
/// makes the bytes written during one live interval recoverable until the
/// file is evicted.
pub proof fn lemma_retired_content_survives(
    dir0: Map<Seq<char>, Seq<u8>>,
    base: Seq<char>,
    c: Compression,
    max_index: int,
    names0: Seq<Seq<char>>,
    listings: Seq<Seq<Seq<char>>>,
    v: int,
) -> (names_out: Seq<Seq<char>>)
    requires
        dir_wf(dir0, base, names0),
        listings_ok(dir0, base, c, max_index, listings),
        0 <= max_index < usize::MAX,
        names0.len() <= max_index + 1,
        1 <= v < names0.len(),
        v + listings.len() <= max_index,
    ensures
        dir_wf(rotated_dirs(dir0, base, c, max_index, listings), base, names_out),
        names_out.len() <= max_index + 1,
        v + listings.len() < names_out.len(),
        rotated_dirs(dir0, base, c, max_index, listings)[names_out[v + listings.len()]]
            == dir0[names0[v]],
    decreases listings.len(),
{
    if listings.len() == 0 {
        names0
    } else {
        assert forall|k: int| 0 <= k < listings.drop_last().len() implies listing_of(
            #[trigger] listings.drop_last()[k],
            rotated_dirs(dir0, base, c, max_index, listings.drop_last().take(k)),
        ) by {
            assert(listings.drop_last()[k] == listings[k]);
            assert(listings.drop_last().take(k) =~= listings.take(k));
        }
        let prev = lemma_retired_content_survives(
            dir0,
            base,
            c,
            max_index,
            names0,
            listings.drop_last(),
            v,
        );
        let dprev = rotated_dirs(dir0, base, c, max_index, listings.drop_last());
        assert(listing_of(listings.last(), dprev)) by {
            assert(listings[listings.len() - 1] == listings.last());
            assert(listings.take(listings.len() - 1) =~= listings.drop_last());
        }
        let cur = lemma_rotation_step(dprev, base, c, max_index, prev, listings.last());
        let j = v + listings.len();
        assert(cur[j] == spec_shifted_name(base, c, prev, j));
        assert(rotated_dirs(dir0, base, c, max_index, listings)[cur[j]] == spec_shifted_content(
            c,
            dprev,
            prev,
            j,
        ));
        cur
    }
}

} // verus!
