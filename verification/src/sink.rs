//! Byte accounting and rotation logic for the rotating file sink.
//!
//! The sink owns one active log file and at most `max_files` rotated backing
//! files, named by appending `.1` (most recent) through `.max_files` (oldest)
//! to the active path. A write that would push the active file past
//! `max_bytes` first rotates: the oldest rotated file is deleted, every
//! rotated file shifts up one index (highest index first, so nothing is
//! clobbered before it has moved), the active file becomes `.1`, and a fresh
//! empty active file is started. The ceiling is a rotation trigger, not a
//! hard cap: an oversized line still lands, alone, in the fresh active file.
//!
//! The crate keeps the file contents as an in-memory [`FileSet`]; the real
//! filesystem is driven from outside the crate by replaying the exact
//! [`RotateOp`] sequence that [`rotation_ops`] plans, so the order proved
//! here is the order performed on disk.

use vstd::prelude::*;

verus! {

/// The byte appended after every line.
pub const NEWLINE: u8 = 10;

/// Accounting state of the sink: the size ceiling, the retention count and
/// the number of bytes written to the active file since it was created or
/// truncated. This state is the authority on the current size, which is
/// never re-read from the file.
pub struct Sink {
    pub max_bytes: u64,
    pub max_files: usize,
    pub current_size: u64,
}

impl Sink {
    /// The retention count has a minimum effective value of 1.
    pub open spec fn wf(&self) -> bool {
        self.max_files >= 1
    }

    /// A write of `incoming` bytes triggers a rotation exactly when it would
    /// push the active file past the ceiling.
    pub open spec fn spec_needs_rotation(&self, incoming: nat) -> bool {
        self.current_size + incoming > self.max_bytes
    }

    /// State of a freshly opened sink: the size is seeded from the existing
    /// length of the active file, and `max_files` is clamped to at least 1.
    pub fn open(existing_len: u64, max_bytes: u64, max_files: usize) -> (s: Sink)
        ensures
            s.wf(),
            s.max_bytes == max_bytes,
            s.current_size == existing_len,
            s.max_files == if max_files >= 1 { max_files } else { 1usize },
    {
        let clamped: usize = if max_files >= 1 { max_files } else { 1 };
        Sink { max_bytes, max_files: clamped, current_size: existing_len }
    }

    /// The rotation trigger: size-only, so a single record larger than the
    /// ceiling still triggers exactly one rotation.
    pub fn needs_rotation(&self, incoming: u64) -> (r: bool)
        ensures
            r == self.spec_needs_rotation(incoming as nat),
    {
        if self.current_size > self.max_bytes {
            true
        } else {
            incoming > self.max_bytes - self.current_size
        }
    }
}

/// One best-effort filesystem step of a rotation, in terms of the rotated
/// indices `.1` (newest) through `.max_files` (oldest).
#[derive(Clone, Copy, PartialEq, Eq, Structural, Debug)]
pub enum RotateOp {
    /// Delete the oldest rotated file, `.max_files`, if present.
    RemoveOldest,
    /// Rename `.from` to `.to` (always `to == from + 1`), if `.from` exists.
    Shift { from: usize, to: usize },
    /// Rename the active file to `.1`.
    ArchiveActive,
    /// Truncate-create the active path as a fresh empty file.
    StartFresh,
}

/// The planned steps of one rotation, in the exact order they must run:
/// delete the oldest, shift `.i` to `.i+1` strictly from the highest index
/// down to 1, archive the active file as `.1`, start a fresh active file.
pub fn rotation_ops(max_files: usize) -> (ops: Vec<RotateOp>)
    requires
        1 <= max_files,
        max_files < usize::MAX - 1,
    ensures
        ops@.len() == max_files + 2,
        ops@[0] == RotateOp::RemoveOldest,
        forall|j: int|
            1 <= j <= max_files - 1 ==> ops@[j] == (RotateOp::Shift {
                from: (max_files - j) as usize,
                to: (max_files - j + 1) as usize,
            }),
        ops@[max_files as int] == RotateOp::ArchiveActive,
        ops@[max_files as int + 1] == RotateOp::StartFresh,
{
    let mut ops: Vec<RotateOp> = Vec::new();
    ops.push(RotateOp::RemoveOldest);
    let mut from: usize = max_files - 1;
    while from >= 1
        invariant
            from <= max_files - 1,
            ops@.len() == max_files - from,
            ops@[0] == RotateOp::RemoveOldest,
            forall|j: int|
                1 <= j < ops@.len() ==> ops@[j] == (RotateOp::Shift {
                    from: (max_files - j) as usize,
                    to: (max_files - j + 1) as usize,
                }),
        decreases from,
    {
        ops.push(RotateOp::Shift { from, to: from + 1 });
        from = from - 1;
    }
    ops.push(RotateOp::ArchiveActive);
    ops.push(RotateOp::StartFresh);
    ops
}

/// In-memory contents of the sink's files: the bytes of the active file and
/// of each rotated slot (`rotated[i]` stands for `.i+1`; `None` means the
/// file does not exist).
pub struct FileSet {
    pub active: Vec<u8>,
    pub rotated: Vec<Option<Vec<u8>>>,
}

/// The rotated slots after one rotation: `.1` holds the old active content,
/// `.i+1` holds what `.i` held, and the old `.max_files` is gone.
pub open spec fn spec_rotate(r: Seq<Option<Seq<u8>>>, active: Seq<u8>) -> Seq<Option<Seq<u8>>> {
    Seq::new(r.len(), |i: int| if i == 0 { Some(active) } else { r[i - 1] })
}

impl FileSet {
    /// A fresh set: empty active file, no rotated files.
    pub fn new(max_files: usize) -> (f: FileSet)
        ensures
            f.active@ == Seq::<u8>::empty(),
            f.rotated@.len() == max_files,
            forall|i: int| 0 <= i < max_files ==> f.rotated.deep_view()[i] is None,
    {
        let mut rotated: Vec<Option<Vec<u8>>> = Vec::new();
        let mut i: usize = 0;
        while i < max_files
            invariant
                i <= max_files,
                rotated@.len() == i,
                forall|j: int| 0 <= j < i ==> rotated@[j] is None,
            decreases max_files - i,
        {
            rotated.push(None);
            i = i + 1;
        }
        let f = FileSet { active: Vec::new(), rotated };
        proof {
            assert(forall|i: int| 0 <= i < max_files ==> f.rotated.deep_view()[i] is None);
        }
        f
    }

    /// When an op makes sense for this set.
    pub open spec fn op_ok(&self, op: RotateOp) -> bool {
        match op {
            RotateOp::RemoveOldest => self.rotated@.len() >= 1,
            RotateOp::Shift { from, to } => 1 <= from && to == from + 1 && to
                <= self.rotated@.len(),
            RotateOp::ArchiveActive => self.rotated@.len() >= 1,
            RotateOp::StartFresh => true,
        }
    }

    /// What one op does to the in-memory files; the unverified shell performs
    /// the same step on disk with a delete, a rename or a truncate-create.
    pub fn apply_op(&mut self, op: RotateOp)
        requires
            old(self).op_ok(op),
        ensures
            final(self).rotated@.len() == old(self).rotated@.len(),
            match op {
                RotateOp::RemoveOldest => final(self).active@ == old(self).active@
                    && final(self).rotated.deep_view()
                    == old(self).rotated.deep_view().update(
                        old(self).rotated@.len() - 1, None::<Seq<u8>>),
                RotateOp::Shift { from, to } => final(self).active@ == old(self).active@
                    && final(self).rotated.deep_view()
                    == (if old(self).rotated.deep_view()[from - 1] is Some {
                        old(self).rotated.deep_view().update(
                            to - 1, old(self).rotated.deep_view()[from - 1],
                        ).update(from - 1, None::<Seq<u8>>)
                    } else {
                        old(self).rotated.deep_view()
                    }),
                RotateOp::ArchiveActive => final(self).active@ == Seq::<u8>::empty()
                    && final(self).rotated.deep_view()
                    == old(self).rotated.deep_view().update(0, Some(old(self).active@)),
                RotateOp::StartFresh => final(self).active@ == Seq::<u8>::empty()
                    && final(self).rotated.deep_view() == old(self).rotated.deep_view(),
            },
    {
        match op {
            RotateOp::RemoveOldest => {
                let n = self.rotated.len();
                self.rotated[n - 1] = None;
                proof {
                    assert(self.rotated.deep_view() =~= old(self).rotated.deep_view().update(
                        old(self).rotated@.len() - 1,
                        None::<Seq<u8>>,
                    ));
                }
            },
            RotateOp::Shift { from, to } => {
                if self.rotated[from - 1].is_some() {
                    let moved = self.rotated.remove(from - 1);
                    self.rotated.insert(from - 1, None);
                    self.rotated[to - 1] = moved;
                    proof {
                        assert(self.rotated@ =~= old(self).rotated@.update(
                            from - 1,
                            None::<Vec<u8>>,
                        ).update(to - 1, old(self).rotated@[from - 1]));
                        assert(self.rotated.deep_view() =~= old(self).rotated.deep_view().update(
                            to - 1,
                            old(self).rotated.deep_view()[from - 1],
                        ).update(from - 1, None::<Seq<u8>>));
                    }
                }
            },
            RotateOp::ArchiveActive => {
                let mut taken: Vec<u8> = Vec::new();
                core::mem::swap(&mut taken, &mut self.active);
                proof {
                    assert(taken.deep_view() =~= old(self).active@);
                }
                self.rotated[0] = Some(taken);
                proof {
                    assert(self.rotated.deep_view() =~= old(self).rotated.deep_view().update(
                        0,
                        Some(old(self).active@),
                    ));
                }
            },
            RotateOp::StartFresh => {
                self.active.clear();
                proof {
                    assert(self.rotated.deep_view() =~= old(self).rotated.deep_view());
                }
            },
        }
    }

    /// One full rotation, performed exactly as [`rotation_ops`] plans it.
    /// Replaying the planned steps in their stated order really does shift
    /// every file up one slot without clobbering any of them.
    pub fn rotate(&mut self)
        requires
            old(self).rotated@.len() >= 1,
            old(self).rotated@.len() < usize::MAX - 1,
        ensures
            final(self).active@ == Seq::<u8>::empty(),
            final(self).rotated@.len() == old(self).rotated@.len(),
            final(self).rotated.deep_view() == spec_rotate(
                old(self).rotated.deep_view(),
                old(self).active@,
            ),
    {
        let ghost r0 = self.rotated.deep_view();
        let ghost a0 = self.active@;
        let n = self.rotated.len();
        let ops = rotation_ops(n);
        let mut j: usize = 0;
        while j < ops.len()
            invariant
                ops@.len() == n + 2,
                1 <= n < usize::MAX - 1,
                j <= ops@.len(),
                ops@[0] == RotateOp::RemoveOldest,
                forall|k: int|
                    1 <= k <= n - 1 ==> ops@[k] == (RotateOp::Shift {
                        from: (n - k) as usize,
                        to: (n - k + 1) as usize,
                    }),
                ops@[n as int] == RotateOp::ArchiveActive,
                ops@[n as int + 1] == RotateOp::StartFresh,
                self.rotated@.len() == n,
                r0.len() == n,
                j == 0 ==> self.rotated.deep_view() == r0 && self.active@ == a0,
                1 <= j <= n ==> self.active@ == a0 && self.rotated.deep_view()[n - j] is None
                    && (forall|s: int|
                    n - j < s < n ==> self.rotated.deep_view()[s] == r0[s - 1]) && (forall|s: int|
                    0 <= s < n - j ==> self.rotated.deep_view()[s] == r0[s]),
                j > n ==> self.active@ == Seq::<u8>::empty()
                    && self.rotated.deep_view()[0] == Some(a0) && (forall|s: int|
                    1 <= s < n ==> self.rotated.deep_view()[s] == r0[s - 1]),
            decreases ops@.len() - j,
        {
            let op = ops[j];
            self.apply_op(op);
            j = j + 1;
        }
        proof {
            assert(self.rotated.deep_view() =~= spec_rotate(r0, a0));
        }
    }
}

/// The mathematical state of the sink and its files.
#[verifier::ext_equal]
pub ghost struct SinkModel {
    pub max_bytes: int,
    pub size: int,
    pub active: Seq<u8>,
    pub rotated: Seq<Option<Seq<u8>>>,
}

/// The model an accounting state and a file set stand for.
pub open spec fn model(s: Sink, f: FileSet) -> SinkModel {
    SinkModel {
        max_bytes: s.max_bytes as int,
        size: s.current_size as int,
        active: f.active@,
        rotated: f.rotated.deep_view(),
    }
}

/// Whether a write of this line rotates first.
pub open spec fn spec_write_rotates(m: SinkModel, line: Seq<u8>) -> bool {
    m.size + line.len() + 1 > m.max_bytes
}

/// The state after `write_line`: rotate first if the line would push past the
/// ceiling, then append the line and a newline to the active file and account
/// for the bytes.
pub open spec fn spec_write(m: SinkModel, line: Seq<u8>) -> SinkModel {
    let rotates = spec_write_rotates(m, line);
    let base_active: Seq<u8> = if rotates {
        Seq::<u8>::empty()
    } else {
        m.active
    };
    let base_size: int = if rotates {
        0
    } else {
        m.size
    };
    SinkModel {
        max_bytes: m.max_bytes,
        size: base_size + line.len() + 1,
        active: base_active + line + seq![NEWLINE],
        rotated: if rotates {
            spec_rotate(m.rotated, m.active)
        } else {
            m.rotated
        },
    }
}

/// Append `line` and a newline to the active file, rotating first if needed.
/// Each call commits the whole line at once: the new active content is the
/// old content (empty after a rotation) followed by the line and the newline,
/// so no partial or interleaved record can appear.
pub fn write_line(sink: &mut Sink, files: &mut FileSet, line: &Vec<u8>) -> (rotated: bool)
    requires
        old(sink).wf(),
        old(files).rotated@.len() == old(sink).max_files,
        line@.len() < u64::MAX,
        old(sink).max_files < usize::MAX - 1,
    ensures
        rotated == spec_write_rotates(model(*old(sink), *old(files)), line@),
        model(*final(sink), *final(files)) == spec_write(model(*old(sink), *old(files)), line@),
        final(sink).wf(),
        final(sink).max_bytes == old(sink).max_bytes,
        final(sink).max_files == old(sink).max_files,
        final(files).rotated@.len() == final(sink).max_files,
{
    let ghost m0 = model(*sink, *files);
    let incoming: u64 = line.len() as u64 + 1;
    let rotated = sink.needs_rotation(incoming);
    if rotated {
        files.rotate();
        sink.current_size = 0;
    }
    let mut tail = line.clone();
    proof {
        assert(tail@ =~= line@);
    }
    files.active.append(&mut tail);
    files.active.push(NEWLINE);
    sink.current_size = sink.current_size + incoming;
    proof {
        assert(files.active@ =~= spec_write(m0, line@).active);
        assert(model(*sink, *files) =~~= spec_write(m0, line@));
    }
    rotated
}

/// The state after a whole run of `write_line` calls, oldest first.
pub open spec fn spec_run(m: SinkModel, lines: Seq<Seq<u8>>) -> SinkModel
    decreases lines.len(),
{
    if lines.len() == 0 {
        m
    } else {
        spec_write(spec_run(m, lines.drop_last()), lines.last())
    }
}

/// The bytes a run appends: the sum of `line length + 1` over the lines.
pub open spec fn run_bytes(lines: Seq<Seq<u8>>) -> int
    decreases lines.len(),
{
    if lines.len() == 0 {
        0
    } else {
        run_bytes(lines.drop_last()) + lines.last().len() + 1
    }
}

/// Whether no call of the run rotates.
pub open spec fn run_rotation_free(m: SinkModel, lines: Seq<Seq<u8>>) -> bool
    decreases lines.len(),
{
    lines.len() == 0 || (run_rotation_free(m, lines.drop_last()) && !spec_write_rotates(
        spec_run(m, lines.drop_last()),
        lines.last(),
    ))
}

/// The lines of a run laid out in the active file, each followed by a newline.
pub open spec fn concat_lines(lines: Seq<Seq<u8>>) -> Seq<u8>
    decreases lines.len(),
{
    if lines.len() == 0 {
        Seq::<u8>::empty()
    } else {
        concat_lines(lines.drop_last()) + lines.last() + seq![NEWLINE]
    }
}

/// LAW: for every sequence of `write_line` calls whose cumulative bytes stay
/// within `max_bytes`, no rotation occurs, the rotated files are untouched,
/// and the active file ends holding exactly the lines in order, with final
/// byte length equal to the sum of `line length + 1` over the calls.
pub proof fn lemma_run_within_ceiling(m: SinkModel, lines: Seq<Seq<u8>>)
    requires
        m.size == 0,
        m.active == Seq::<u8>::empty(),
        run_bytes(lines) <= m.max_bytes,
    ensures
        run_rotation_free(m, lines),
        spec_run(m, lines).max_bytes == m.max_bytes,
        spec_run(m, lines).size == run_bytes(lines),
        spec_run(m, lines).active == concat_lines(lines),
        spec_run(m, lines).active.len() == run_bytes(lines),
        spec_run(m, lines).rotated == m.rotated,
    decreases lines.len(),
{
    if lines.len() > 0 {
        assert(run_bytes(lines) == run_bytes(lines.drop_last()) + lines.last().len() + 1);
        assert(run_bytes(lines.drop_last()) <= m.max_bytes);
        lemma_run_within_ceiling(m, lines.drop_last());
        let before = spec_run(m, lines.drop_last());
        assert(!spec_write_rotates(before, lines.last()));
        assert(spec_run(m, lines).active == concat_lines(lines));
    }
}

/// LAW: once a call's `current_size + incoming` exceeds `max_bytes`, that
/// call rotates: the written line lands alone in the now-empty active file,
/// `.1` holds exactly the previous active content, and every older file
/// moves up one slot.
pub proof fn lemma_over_ceiling_rotates(m: SinkModel, line: Seq<u8>)
    requires
        m.size + line.len() + 1 > m.max_bytes,
    ensures
        spec_write_rotates(m, line),
        spec_write(m, line).active == line + seq![NEWLINE],
        spec_write(m, line).size == line.len() + 1,
        spec_write(m, line).rotated == spec_rotate(m.rotated, m.active),
        m.rotated.len() >= 1 ==> spec_write(m, line).rotated[0] == Some(m.active),
{
    assert(spec_write(m, line).active =~= line + seq![NEWLINE]);
}

/// Content that holds no newline byte, so it cannot fake a line boundary.
pub open spec fn newline_free(s: Seq<u8>) -> bool {
    forall|j: int| 0 <= j < s.len() ==> s[j] != NEWLINE
}

/// Number of newline bytes — complete lines — in a file's content.
pub open spec fn count_newlines(s: Seq<u8>) -> int
    decreases s.len(),
{
    if s.len() == 0 {
        0
    } else {
        count_newlines(s.drop_last()) + if s.last() == NEWLINE {
            1int
        } else {
            0int
        }
    }
}

proof fn lemma_count_newlines_concat(a: Seq<u8>, b: Seq<u8>)
    ensures
        count_newlines(a + b) == count_newlines(a) + count_newlines(b),
    decreases b.len(),
{
    if b.len() == 0 {
        assert(a + b =~= a);
    } else {
        lemma_count_newlines_concat(a, b.drop_last());
        assert((a + b).drop_last() =~= a + b.drop_last());
        assert((a + b).last() == b.last());
    }
}

proof fn lemma_count_newlines_none(s: Seq<u8>)
    requires
        newline_free(s),
    ensures
        count_newlines(s) == 0,
    decreases s.len(),
{
    if s.len() > 0 {
        assert(forall|j: int| 0 <= j < s.drop_last().len() ==> s.drop_last()[j] == s[j]);
        lemma_count_newlines_none(s.drop_last());
    }
}

/// LAW: each call commits exactly one whole line. A run from an empty active
/// file that stays within the ceiling, with lines that hold no newline byte,
/// leaves an active file whose line count equals the number of calls — no
/// truncated or interleaved records.
pub proof fn lemma_line_count(m: SinkModel, lines: Seq<Seq<u8>>)
    requires
        m.size == 0,
        m.active == Seq::<u8>::empty(),
        run_bytes(lines) <= m.max_bytes,
        forall|i: int| 0 <= i < lines.len() ==> newline_free(#[trigger] lines[i]),
    ensures
        count_newlines(spec_run(m, lines).active) == lines.len(),
{
    lemma_run_within_ceiling(m, lines);
    lemma_count_concat_lines(lines);
}

proof fn lemma_count_concat_lines(lines: Seq<Seq<u8>>)
    requires
        forall|i: int| 0 <= i < lines.len() ==> newline_free(#[trigger] lines[i]),
    ensures
        count_newlines(concat_lines(lines)) == lines.len(),
    decreases lines.len(),
{
    if lines.len() > 0 {
        let head = lines.drop_last();
        assert(forall|i: int| 0 <= i < head.len() ==> head[i] == lines[i]);
        lemma_count_concat_lines(head);
        lemma_count_newlines_concat(concat_lines(head), lines.last() + seq![NEWLINE]);
        lemma_count_newlines_concat(lines.last(), seq![NEWLINE]);
        lemma_count_newlines_none(lines.last());
        assert(count_newlines(seq![NEWLINE]) == 1) by {
            assert(seq![NEWLINE].len() == 1);
            assert(seq![NEWLINE].last() == NEWLINE);
            assert(seq![NEWLINE].drop_last() =~= Seq::<u8>::empty());
            assert(count_newlines(Seq::<u8>::empty()) == 0);
        }
        assert(concat_lines(lines) == concat_lines(head) + (lines.last() + seq![NEWLINE])) by {
            assert(concat_lines(lines) =~= concat_lines(head) + (lines.last() + seq![NEWLINE]));
        }
    }
}

/// Newlines in one rotated slot; an absent file holds none.
pub open spec fn slot_newlines(s: Option<Seq<u8>>) -> int {
    match s {
        Some(c) => count_newlines(c),
        None => 0,
    }
}

/// Newlines across all rotated slots.
pub open spec fn rotated_newlines(r: Seq<Option<Seq<u8>>>) -> int
    decreases r.len(),
{
    if r.len() == 0 {
        0
    } else {
        rotated_newlines(r.drop_last()) + slot_newlines(r.last())
    }
}

/// Complete lines across the active file and every rotated file.
pub open spec fn total_lines(m: SinkModel) -> int {
    count_newlines(m.active) + rotated_newlines(m.rotated)
}

/// How many calls of a run rotate.
pub open spec fn run_rotations(m: SinkModel, lines: Seq<Seq<u8>>) -> int
    decreases lines.len(),
{
    if lines.len() == 0 {
        0
    } else {
        run_rotations(m, lines.drop_last()) + if spec_write_rotates(
            spec_run(m, lines.drop_last()),
            lines.last(),
        ) {
            1int
        } else {
            0int
        }
    }
}

proof fn lemma_run_rotations_nonneg(m: SinkModel, lines: Seq<Seq<u8>>)
    ensures
        run_rotations(m, lines) >= 0,
    decreases lines.len(),
{
    if lines.len() > 0 {
        lemma_run_rotations_nonneg(m, lines.drop_last());
    }
}

proof fn lemma_rotated_newlines_concat(a: Seq<Option<Seq<u8>>>, b: Seq<Option<Seq<u8>>>)
    ensures
        rotated_newlines(a + b) == rotated_newlines(a) + rotated_newlines(b),
    decreases b.len(),
{
    if b.len() == 0 {
        assert(a + b =~= a);
    } else {
        lemma_rotated_newlines_concat(a, b.drop_last());
        assert((a + b).drop_last() =~= a + b.drop_last());
        assert((a + b).last() == b.last());
    }
}

/// A rotation whose oldest slot is absent loses nothing: the newline total
/// of the slots afterwards is the old total plus the archived active file.
proof fn lemma_rotated_newlines_rotate(r: Seq<Option<Seq<u8>>>, a: Seq<u8>)
    requires
        r.len() >= 1,
        r.last() is None,
    ensures
        rotated_newlines(spec_rotate(r, a)) == count_newlines(a) + rotated_newlines(r),
{
    assert(spec_rotate(r, a) =~= seq![Some(a)] + r.drop_last());
    lemma_rotated_newlines_concat(seq![Some(a)], r.drop_last());
    assert(rotated_newlines(seq![Some(a)]) == count_newlines(a)) by {
        assert(seq![Some(a)].last() == Some(a));
        assert(seq![Some(a)].drop_last() =~= Seq::<Option<Seq<u8>>>::empty());
        assert(rotated_newlines(Seq::<Option<Seq<u8>>>::empty()) == 0);
    }
    assert(rotated_newlines(r) == rotated_newlines(r.drop_last()));
}

/// LAW: until retention has to discard, rotation loses nothing. A run of
/// newline-free lines from a fresh sink that rotates at most `max_files`
/// times leaves exactly one complete line per call across the active file
/// and the rotated files together, and every slot beyond the rotation count
/// stays absent.
pub proof fn lemma_total_line_count(m: SinkModel, lines: Seq<Seq<u8>>)
    requires
        m.active == Seq::<u8>::empty(),
        forall|i: int| 0 <= i < m.rotated.len() ==> m.rotated[i] is None,
        forall|i: int| 0 <= i < lines.len() ==> newline_free(#[trigger] lines[i]),
        run_rotations(m, lines) <= m.rotated.len(),
    ensures
        spec_run(m, lines).rotated.len() == m.rotated.len(),
        total_lines(spec_run(m, lines)) == lines.len(),
        forall|i: int|
            run_rotations(m, lines) <= i < m.rotated.len() ==> spec_run(m, lines).rotated[i]
                is None,
    decreases lines.len(),
{
    if lines.len() == 0 {
        assert(rotated_newlines(m.rotated) == 0) by {
            lemma_rotated_newlines_none(m.rotated);
        }
    } else {
        let head = lines.drop_last();
        let line = lines.last();
        assert(forall|i: int| 0 <= i < head.len() ==> head[i] == lines[i]);
        let rc_prev = run_rotations(m, head);
        let rotates = spec_write_rotates(spec_run(m, head), line);
        assert(run_rotations(m, lines) == rc_prev + if rotates {
            1int
        } else {
            0int
        });
        lemma_total_line_count(m, head);
        let prev = spec_run(m, head);
        let cur = spec_run(m, lines);
        assert(cur == spec_write(prev, line));
        lemma_count_newlines_concat(line, seq![NEWLINE]);
        lemma_count_newlines_none(line);
        assert(count_newlines(seq![NEWLINE]) == 1) by {
            assert(seq![NEWLINE].last() == NEWLINE);
            assert(seq![NEWLINE].drop_last() =~= Seq::<u8>::empty());
            assert(count_newlines(Seq::<u8>::empty()) == 0);
        }
        if rotates {
            lemma_run_rotations_nonneg(m, head);
            assert(0 <= rc_prev <= m.rotated.len() - 1);
            assert(prev.rotated[m.rotated.len() - 1] is None);
            assert(prev.rotated.last() == prev.rotated[prev.rotated.len() - 1]);
            lemma_rotated_newlines_rotate(prev.rotated, prev.active);
            assert(cur.active =~= line + seq![NEWLINE]);
            assert(count_newlines(cur.active) == 1);
            assert forall|i: int|
                run_rotations(m, lines) <= i < m.rotated.len() implies cur.rotated[i] is None by {
                assert(cur.rotated[i] == prev.rotated[i - 1]);
            }
        } else {
            assert(cur.active =~= prev.active + (line + seq![NEWLINE]));
            lemma_count_newlines_concat(prev.active, line + seq![NEWLINE]);
        }
    }
}

proof fn lemma_rotated_newlines_none(r: Seq<Option<Seq<u8>>>)
    requires
        forall|i: int| 0 <= i < r.len() ==> r[i] is None,
    ensures
        rotated_newlines(r) == 0,
    decreases r.len(),
{
    if r.len() > 0 {
        assert(forall|i: int| 0 <= i < r.drop_last().len() ==> r.drop_last()[i] == r[i]);
        lemma_rotated_newlines_none(r.drop_last());
    }
}

/// The rotated slots after a sequence of rotations, archiving `contents`
/// oldest first.
pub open spec fn spec_rotate_n(r: Seq<Option<Seq<u8>>>, contents: Seq<Seq<u8>>) -> Seq<
    Option<Seq<u8>>,
>
    decreases contents.len(),
{
    if contents.len() == 0 {
        r
    } else {
        spec_rotate(spec_rotate_n(r, contents.drop_last()), contents.last())
    }
}

/// LAW: starting with no rotated files, after `k` rotations that archived
/// contents `c_0 .. c_{k-1}`, slot `.i+1` holds `c_{k-1-i}` whenever
/// `i < min(k, max_files)` and is absent otherwise. In particular, after
/// `max_files + 1` rotations exactly `max_files` rotated files exist, `.1`
/// newest and `.max_files` oldest, and the content archived first is gone.
pub proof fn lemma_retention(r: Seq<Option<Seq<u8>>>, contents: Seq<Seq<u8>>)
    requires
        forall|i: int| 0 <= i < r.len() ==> r[i] is None,
    ensures
        spec_rotate_n(r, contents).len() == r.len(),
        forall|i: int|
            0 <= i < r.len() ==> spec_rotate_n(r, contents)[i] == (if i < contents.len() {
                Some(contents[contents.len() - 1 - i])
            } else {
                None::<Seq<u8>>
            }),
    decreases contents.len(),
{
    if contents.len() > 0 {
        lemma_retention(r, contents.drop_last());
        let prev = spec_rotate_n(r, contents.drop_last());
        let cur = spec_rotate_n(r, contents);
        assert forall|i: int| 0 <= i < r.len() implies cur[i] == (if i < contents.len() {
            Some(contents[contents.len() - 1 - i])
        } else {
            None::<Seq<u8>>
        }) by {
            if i == 0 {
                assert(cur[0] == Some(contents.last()));
            } else {
                assert(cur[i] == prev[i - 1]);
                if i - 1 < contents.len() - 1 {
                    assert(contents.drop_last()[contents.len() - 1 - i] == contents[contents.len()
                        - 1 - i]);
                }
            }
        }
    }
}

} // verus!
