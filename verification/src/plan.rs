//! The file-set renumbering algorithm.
//!
//! A rotation turns the directory as it stands into an explicit list of file
//! operations: evict the files at or over the retained bound, shift the
//! survivors up one index slot from highest to lowest (retiring the live
//! file as it leaves slot 0), and finally create a fresh live file at
//! index 0 with a create-exclusive open. The planner only reads a directory
//! listing and decides; the caller executes the operations in order, exactly
//! as listed.

use vstd::prelude::*;

use crate::names::{
    spec_logfile_index, spec_logfile_name, spec_renamed, spec_index_suffix, is_digit,
    leading_digit_count, lemma_leading_digit_count_is, make_logfile_name, digit_value,
};
use crate::{Compression, RotatingFile};

verus! {

/// One step of a rotation, to be carried out against the directory.
///
/// Steps of a plan are executed front to back; the order matters, because
/// every shift renames a file onto the slot that the step before it just
/// vacated.
#[derive(Debug, Clone, PartialEq, Eq)]
pub enum FileOp {
    /// Remove the file; it was evicted from the set.
    Delete { filename: String },
    /// Rename the file, keeping its bytes.
    Rename { from: String, to: String },
    /// Compress the file's bytes into `to` as one zstd frame at the given
    /// level, then remove `from`.
    Compress { from: String, to: String, level: i32 },
    /// Create the file empty, failing if it already exists, and open it as
    /// the new live file.
    Create { filename: String },
}

/// The mathematical shape of a [`FileOp`]: the same step over plain
/// character sequences.
pub enum FileOpModel {
    Delete { filename: Seq<char> },
    Rename { from: Seq<char>, to: Seq<char> },
    Compress { from: Seq<char>, to: Seq<char>, level: int },
    Create { filename: Seq<char> },
}

impl View for FileOp {
    type V = FileOpModel;

    open spec fn view(&self) -> FileOpModel {
        match self {
            FileOp::Delete { filename } => FileOpModel::Delete { filename: filename@ },
            FileOp::Rename { from, to } => FileOpModel::Rename { from: from@, to: to@ },
            FileOp::Compress { from, to, level } => FileOpModel::Compress {
                from: from@,
                to: to@,
                level: *level as int,
            },
            FileOp::Create { filename } => FileOpModel::Create { filename: filename@ },
        }
    }
}

/// The models of a list of file operations.
pub open spec fn plan_view(ops: Seq<FileOp>) -> Seq<FileOpModel> {
    ops.map_values(|op: FileOp| op@)
}

/// The suffix a compressed retired file gains after `.log`.
pub open spec fn zstd_suffix() -> Seq<char> {
    seq!['.', 'z', 's', 't', 'd']
}

/// The largest index slot occupied by any filename of the listing, or
/// `None` when no filename matches the scheme.
pub open spec fn spec_found_max(base: Seq<char>, files: Seq<Seq<char>>) -> Option<int>
    decreases files.len(),
{
    if files.len() == 0 {
        Option::None
    } else {
        let rest = spec_found_max(base, files.drop_last());
        match spec_logfile_index(base, files.last()) {
            Option::Some(i) => match rest {
                Option::Some(m) => Option::Some(if i >= m {
                    i
                } else {
                    m
                }),
                Option::None => Option::Some(i),
            },
            Option::None => rest,
        }
    }
}

/// Delete steps for every listed filename whose index slot lies in
/// `[lo, hi]`, in listing order.
pub open spec fn spec_delete_ops(base: Seq<char>, files: Seq<Seq<char>>, lo: int, hi: int) -> Seq<
    FileOpModel,
>
    decreases files.len(),
{
    if files.len() == 0 {
        Seq::empty()
    } else {
        spec_delete_ops(base, files.drop_last(), lo, hi) + (match spec_logfile_index(
            base,
            files.last(),
        ) {
            Option::Some(i) => if lo <= i <= hi {
                seq![FileOpModel::Delete { filename: files.last() }]
            } else {
                Seq::empty()
            },
            Option::None => Seq::empty(),
        })
    }
}

/// The step that moves one file from index slot `i` to slot `i + 1`.
///
/// Out of slot 0 the retire transform applies: a plain rename, or a
/// compression into `{base}.1.log.zstd`. Out of any higher slot the file is
/// renamed as it is, keeping whatever follows its `.log` part, so a retired
/// file is never transformed again.
pub open spec fn spec_shift_one(base: Seq<char>, c: Compression, f: Seq<char>, i: int) -> FileOpModel {
    if i == 0 {
        match c {
            Compression::Uncompressed => FileOpModel::Rename {
                from: f,
                to: spec_renamed(base, f, 1),
            },
            Compression::Zstd { level } => FileOpModel::Compress {
                from: f,
                to: spec_logfile_name(base, 1) + zstd_suffix(),
                level: level as int,
            },
        }
    } else {
        FileOpModel::Rename { from: f, to: spec_renamed(base, f, (i + 1) as nat) }
    }
}

/// Shift steps for every listed filename occupying index slot `i`, in
/// listing order.
pub open spec fn spec_index_ops(
    base: Seq<char>,
    c: Compression,
    files: Seq<Seq<char>>,
    i: int,
) -> Seq<FileOpModel>
    decreases files.len(),
{
    if files.len() == 0 {
        Seq::empty()
    } else {
        spec_index_ops(base, c, files.drop_last(), i) + (if spec_logfile_index(base, files.last())
            == Option::<int>::Some(i) {
            seq![spec_shift_one(base, c, files.last(), i)]
        } else {
            Seq::empty()
        })
    }
}

/// Shift steps for every index slot from `hi` down to `lo`, strictly highest
/// first, so that no rename lands on a slot that has not been vacated yet.
pub open spec fn spec_shift_down(
    base: Seq<char>,
    c: Compression,
    files: Seq<Seq<char>>,
    hi: int,
    lo: int,
) -> Seq<FileOpModel>
    decreases hi - lo + 1,
{
    if hi < lo {
        Seq::empty()
    } else {
        spec_index_ops(base, c, files, hi) + spec_shift_down(base, c, files, hi - 1, lo)
    }
}

/// The whole rotation plan for a directory listing.
///
/// With no matching file, only the fresh live file is created. Otherwise:
/// if the occupied maximum reaches the retained bound, everything at or over
/// the bound is evicted; then, unless only one file is ever retained, the
/// survivors shift up one slot from highest to lowest; last, the fresh live
/// file is created at slot 0.
pub open spec fn spec_plan(
    base: Seq<char>,
    max_index: int,
    c: Compression,
    files: Seq<Seq<char>>,
) -> Seq<FileOpModel> {
    match spec_found_max(base, files) {
        Option::None => seq![FileOpModel::Create { filename: spec_logfile_name(base, 0) }],
        Option::Some(m) => {
            let deletes = if m >= max_index {
                spec_delete_ops(base, files, max_index, m)
            } else {
                Seq::empty()
            };
            let new_max = if m >= max_index {
                if max_index == 0 {
                    0
                } else {
                    max_index - 1
                }
            } else {
                m
            };
            let shifts = if max_index != 0 {
                spec_shift_down(base, c, files, new_max, 0)
            } else {
                Seq::empty()
            };
            deletes + shifts + seq![FileOpModel::Create { filename: spec_logfile_name(base, 0) }]
        }
    }
}

proof fn lemma_shift_down_extend(
    base: Seq<char>,
    c: Compression,
    files: Seq<Seq<char>>,
    hi: int,
    lo: int,
)
    requires
        lo <= hi,
    ensures
        spec_shift_down(base, c, files, hi, lo) == spec_shift_down(base, c, files, hi, lo + 1)
            + spec_index_ops(base, c, files, lo),
    decreases hi - lo,
{
    if hi == lo {
        assert(spec_shift_down(base, c, files, hi - 1, lo) == Seq::<FileOpModel>::empty());
        assert(spec_shift_down(base, c, files, hi, lo + 1) == Seq::<FileOpModel>::empty());
        assert(spec_shift_down(base, c, files, hi, lo) =~= spec_shift_down(base, c, files, hi, lo + 1)
            + spec_index_ops(base, c, files, lo));
    } else {
        lemma_shift_down_extend(base, c, files, hi - 1, lo);
        assert(spec_shift_down(base, c, files, hi, lo) =~= spec_shift_down(base, c, files, hi, lo + 1)
            + spec_index_ops(base, c, files, lo));
    }
}

/// Build the filename that moves `f` to index slot `j`: the base name, the
/// new index digits, and whatever followed the old digits, unchanged.
fn renamed_filename(base: &str, f: &str, j: usize) -> (r: String)
    requires
        spec_logfile_index(base@, f@) is Some,
    ensures
        r@ == spec_renamed(base@, f@, j as nat),
{
    let bl = base.unicode_len();
    let fl = f.unicode_len();
    let ghost rest = f@.skip(bl as int + 1);
    proof {
        assert(forall|t: int| 0 <= t < rest.len() ==> #[trigger] rest[t] == f@[t + bl + 1]);
    }
    let mut k: usize = 0;
    loop
        invariant
            bl + 1 + k <= fl,
            bl == base@.len(),
            fl == f@.len(),
            fl > bl,
            rest == f@.skip(bl as int + 1),
            forall|t: int| 0 <= t < k ==> is_digit(#[trigger] rest[t]),
        ensures
            bl + 1 + k <= fl,
            forall|t: int| 0 <= t < k ==> is_digit(#[trigger] rest[t]),
            k as int == rest.len() || !is_digit(rest[k as int]),
        decreases fl - bl - 1 - k,
    {
        if bl + 1 + k >= fl {
            break;
        }
        let c = f.get_char(bl + 1 + k);
        proof {
            assert(rest[k as int] == f@[k + bl + 1]);
        }
        if digit_value(c) >= 10 {
            break;
        }
        k = k + 1;
    }
    proof {
        lemma_leading_digit_count_is(rest, k as int);
    }
    let tail_start = bl + 1 + k;
    let mut s = base.to_owned();
    proof {
        reveal_strlit(".");
        assert("."@ =~= seq!['.']);
    }
    s.append(".");
    crate::names::push_decimal_digits(&mut s, j);
    let suffix = f.substring_char(tail_start, fl);
    s.append(suffix);
    proof {
        assert(suffix@ =~= rest.skip(k as int));
        assert(s@ =~= spec_renamed(base@, f@, j as nat));
    }
    s
}

impl RotatingFile {
    /// Survey a directory listing: the largest index slot occupied by any
    /// entry, or `None` when no entry matches this set's naming scheme.
    pub fn find_max_index(&self, filenames: &Vec<String>) -> (r: Option<usize>)
        ensures
            r matches Some(m) ==> spec_found_max(
                self.name@,
                filenames@.map_values(|s: String| s@),
            ) == Option::Some(m as int),
            r is None ==> spec_found_max(self.name@, filenames@.map_values(|s: String| s@))
                is None,
    {
        let ghost views = filenames@.map_values(|s: String| s@);
        let mut cur: Option<usize> = None;
        let mut x: usize = 0;
        while x < filenames.len()
            invariant
                x <= filenames@.len(),
                views == filenames@.map_values(|s: String| s@),
                match cur {
                    Some(m) => spec_found_max(self.name@, views.take(x as int)) == Option::Some(
                        m as int,
                    ),
                    None => spec_found_max(self.name@, views.take(x as int)) is None,
                },
            decreases filenames@.len() - x,
        {
            proof {
                assert(views.take(x + 1).drop_last() =~= views.take(x as int));
                assert(views.take(x + 1).last() == views[x as int]);
                assert(views[x as int] == filenames@[x as int]@);
            }
            match self.logfile_index(filenames[x].as_str()) {
                Some(i) => {
                    cur = match cur {
                        Some(m) => if i >= m {
                            Some(i)
                        } else {
                            Some(m)
                        },
                        None => Some(i),
                    };
                }
                None => {}
            }
            x = x + 1;
        }
        proof {
            assert(views.take(views.len() as int) =~= views);
        }
        cur
    }

    /// Plan one rotation against the directory as listed.
    ///
    /// `filenames` is the plain listing of the target directory, in any
    /// order; entries outside the naming scheme are ignored and never
    /// touched. The returned steps, executed front to back, renumber the
    /// file set and end with the creation of the fresh live file.
    pub fn plan_rotation(&self, filenames: &Vec<String>) -> (ops: Vec<FileOp>)
        ensures
            plan_view(ops@) == spec_plan(
                self.name@,
                self.max_index as int,
                self.compression,
                filenames@.map_values(|s: String| s@),
            ),
    {
        let ghost base = self.name@;
        let ghost views = filenames@.map_values(|s: String| s@);
        let ghost mi = self.max_index as int;
        let mut ops: Vec<FileOp> = Vec::new();
        let found = self.find_max_index(filenames);
        match found {
            None => {
                ops.push(FileOp::Create { filename: self.make_filepath(0) });
                proof {
                    assert(plan_view(ops@) =~= spec_plan(base, mi, self.compression, views));
                }
                ops
            }
            Some(m) => {
                let ghost deletes = if m as int >= mi {
                    spec_delete_ops(base, views, mi, m as int)
                } else {
                    Seq::<FileOpModel>::empty()
                };
                if m >= self.max_index {
                    let mut x: usize = 0;
                    while x < filenames.len()
                        invariant
                            x <= filenames@.len(),
                            views == filenames@.map_values(|s: String| s@),
                            base == self.name@,
                            mi == self.max_index as int,
                            m as int >= mi,
                            plan_view(ops@) == spec_delete_ops(
                                base,
                                views.take(x as int),
                                mi,
                                m as int,
                            ),
                        decreases filenames@.len() - x,
                    {
                        proof {
                            assert(views.take(x + 1).drop_last() =~= views.take(x as int));
                            assert(views.take(x + 1).last() == views[x as int]);
                            assert(views[x as int] == filenames@[x as int]@);
                        }
                        let ghost before = ops@;
                        match self.logfile_index(filenames[x].as_str()) {
                            Some(i) => {
                                if self.max_index <= i && i <= m {
                                    ops.push(FileOp::Delete { filename: filenames[x].clone() });
                                    proof {
                                        assert(plan_view(ops@) =~= plan_view(before) + seq![
                                            FileOpModel::Delete { filename: views[x as int] },
                                        ]);
                                    }
                                }
                            }
                            None => {}
                        }
                        x = x + 1;
                    }
                    proof {
                        assert(views.take(views.len() as int) =~= views);
                    }
                }
                proof {
                    assert(plan_view(ops@) == deletes);
                }
                if self.max_index != 0 {
                    let new_max = if m >= self.max_index {
                        self.max_index - 1
                    } else {
                        m
                    };
                    let ghost shifts_all = spec_shift_down(
                        base,
                        self.compression,
                        views,
                        new_max as int,
                        0,
                    );
                    let mut i: usize = new_max;
                    loop
                        invariant_except_break
                            plan_view(ops@) == deletes + spec_shift_down(
                                base,
                                self.compression,
                                views,
                                new_max as int,
                                i as int + 1,
                            ),
                        invariant
                            i <= new_max,
                            new_max < usize::MAX,
                            views == filenames@.map_values(|s: String| s@),
                            base == self.name@,
                            mi == self.max_index as int,
                            shifts_all == spec_shift_down(
                                base,
                                self.compression,
                                views,
                                new_max as int,
                                0,
                            ),
                        ensures
                            plan_view(ops@) == deletes + shifts_all,
                        decreases i,
                    {
                        let ghost done = spec_shift_down(
                            base,
                            self.compression,
                            views,
                            new_max as int,
                            i as int + 1,
                        );
                        let mut x: usize = 0;
                        while x < filenames.len()
                            invariant
                                x <= filenames@.len(),
                                i <= new_max,
                                new_max < usize::MAX,
                                views == filenames@.map_values(|s: String| s@),
                                base == self.name@,
                                done == spec_shift_down(
                                    base,
                                    self.compression,
                                    views,
                                    new_max as int,
                                    i as int + 1,
                                ),
                                plan_view(ops@) == deletes + done + spec_index_ops(
                                    base,
                                    self.compression,
                                    views.take(x as int),
                                    i as int,
                                ),
                            decreases filenames@.len() - x,
                        {
                            proof {
                                assert(views.take(x + 1).drop_last() =~= views.take(x as int));
                                assert(views.take(x + 1).last() == views[x as int]);
                                assert(views[x as int] == filenames@[x as int]@);
                            }
                            let ghost before = ops@;
                            match self.logfile_index(filenames[x].as_str()) {
                                Some(idx) => {
                                    if idx == i {
                                        let op: FileOp = if i == 0 {
                                            match self.compression {
                                                Compression::Uncompressed => FileOp::Rename {
                                                    from: filenames[x].clone(),
                                                    to: renamed_filename(
                                                        self.name.as_str(),
                                                        filenames[x].as_str(),
                                                        1,
                                                    ),
                                                },
                                                Compression::Zstd { level } => {
                                                    let mut to = self.make_filepath(1);
                                                    proof {
                                                        reveal_strlit(".zstd");
                                                        assert(".zstd"@ =~= zstd_suffix());
                                                    }
                                                    to.append(".zstd");
                                                    FileOp::Compress {
                                                        from: filenames[x].clone(),
                                                        to,
                                                        level,
                                                    }
                                                }
                                            }
                                        } else {
                                            FileOp::Rename {
                                                from: filenames[x].clone(),
                                                to: renamed_filename(
                                                    self.name.as_str(),
                                                    filenames[x].as_str(),
                                                    i + 1,
                                                ),
                                            }
                                        };
                                        proof {
                                            assert(op@ == spec_shift_one(
                                                base,
                                                self.compression,
                                                views[x as int],
                                                i as int,
                                            ));
                                        }
                                        ops.push(op);
                                        proof {
                                            assert(plan_view(ops@) =~= plan_view(before) + seq![
                                                spec_shift_one(
                                                    base,
                                                    self.compression,
                                                    views[x as int],
                                                    i as int,
                                                ),
                                            ]);
                                        }
                                    }
                                }
                                None => {}
                            }
                            x = x + 1;
                        }
                        proof {
                            assert(views.take(views.len() as int) =~= views);
                            lemma_shift_down_extend(
                                base,
                                self.compression,
                                views,
                                new_max as int,
                                i as int,
                            );
                        }
                        if i == 0 {
                            break;
                        }
                        i = i - 1;
                    }
                }
                ops.push(FileOp::Create { filename: self.make_filepath(0) });
                proof {
                    let ghost full = spec_plan(base, mi, self.compression, views);
                    assert(plan_view(ops@) =~= full);
                }
                ops
            }
        }
    }
}

} // verus!
