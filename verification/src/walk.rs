//! The tree-mirror walker's decisions, as a work-list state machine.
//!
//! The walker itself does no I/O.  A caller (ordinarily a thin shell around
//! this library) pops one directory task at a time with [`Mirror::next_dir`],
//! lists that directory, and hands the listing to [`Mirror::plan_dir`], which
//! returns the per-entry work in listing order and pushes the subdirectory
//! tasks; the caller carries each step out — transforming files through
//! [`transform`] and creating destination directories — before popping the
//! next task.  A broken listing entry is skipped; everything else that fails
//! is fatal and ends the whole walk.  The diagnostic variant, [`Printer`],
//! walks the same way without destinations: it only announces each visited
//! path and lets the caller show each file's decoded text.
//!
//! Two oddities of this walker are deliberate: a file's write target is the
//! destination directory path itself, not that path joined with the entry
//! name (so within one directory the last file wins), and subdirectory tasks
//! come off the work list newest-first, so sibling subtrees are visited in
//! reverse listing order while each directory's own entries keep listing
//! order.

use vstd::prelude::*;
use vstd::string::StringExecFns;

use vstd::utf8::{decode_utf8, valid_utf8};

use crate::codec::{encode_utf8_utf16, decode_utf8_utf16, encoded_bytes, units_of_bytes,
    utf16_chars_of};
use crate::codec::lossless_utf16_bytes;
use crate::subst::{all_applied, chain_applied, pairs_view, replace_all, terminating_pairs};
use crate::text::{StrUtf816, StrEncoding};

verus! {

/// What a directory entry turned out to be.
#[derive(Clone, Copy, PartialEq, Eq, Structural, Debug)]
pub enum EntryKind {
    File,
    Dir,
    Other,
}

/// One entry of a directory listing as the walker sees it: either the
/// enumeration of this entry itself failed, or the entry has a name and
/// possibly a kind — a kind that could not be determined is `None`.
pub enum DirEntry {
    Broken,
    Named { name: String, kind: Option<EntryKind> },
}

/// The failures the walker distinguishes.
#[derive(Clone, Copy, PartialEq, Eq, Structural, Debug)]
pub enum WalkError {
    /// A directory could not be enumerated.
    DirectoryRead,
    /// An entry's kind (file or directory) could not be determined.
    EntryType,
    /// A file could not be read for decoding.
    FileDecode,
    /// A file or directory could not be written or created.
    FileWrite,
}

impl WalkError {
    /// The caption for this failure.  A failed directory enumeration is
    /// reported generically, without the underlying system message.
    pub fn message(&self) -> (r: String)
        ensures
            self is DirectoryRead ==> r@ == "Could not read directory"@,
            self is EntryType ==> r@ == "Could not determine entry type"@,
            self is FileDecode ==> r@ == "Could not read file"@,
            self is FileWrite ==> r@ == "Could not write file"@,
    {
        match self {
            WalkError::DirectoryRead => String::from_str("Could not read directory"),
            WalkError::EntryType => String::from_str("Could not determine entry type"),
            WalkError::FileDecode => String::from_str("Could not read file"),
            WalkError::FileWrite => String::from_str("Could not write file"),
        }
    }
}

/// One unit of per-directory work, in listing order: copy a file through the
/// substitution pipeline, or create a destination subdirectory (which the
/// walker has also pushed as a pending task).
pub enum PlanStep {
    CopyFile { src: String, dst: String },
    EnterDir { src: String, dst: String },
}

/// The mathematical content of a [`PlanStep`].
pub enum PlanStepView {
    Copy { src: Seq<char>, dst: Seq<char> },
    Enter { src: Seq<char>, dst: Seq<char> },
}

impl View for PlanStep {
    type V = PlanStepView;

    open spec fn view(&self) -> PlanStepView {
        match self {
            PlanStep::CopyFile { src, dst } => PlanStepView::Copy { src: src@, dst: dst@ },
            PlanStep::EnterDir { src, dst } => PlanStepView::Enter { src: src@, dst: dst@ },
        }
    }
}

/// The views of a step list.
pub open spec fn steps_view(steps: Seq<PlanStep>) -> Seq<PlanStepView> {
    steps.map_values(|s: PlanStep| s@)
}

/// A directory path extended by one entry name.
pub open spec fn join_path(dir: Seq<char>, name: Seq<char>) -> Seq<char> {
    dir + seq!['/'] + name
}

/// The work a directory listing calls for, and whether it ends in a fatal
/// failure.  Entries are taken in listing order: a broken entry is skipped;
/// an entry without a kind stops the directory with [`WalkError::EntryType`],
/// dropping the remaining entries; a file becomes a copy step whose write
/// target is the destination directory path itself; a subdirectory becomes
/// an enter step with both paths extended by its name; anything else is
/// passed over.
pub open spec fn plan_of(src: Seq<char>, dst: Seq<char>, entries: Seq<DirEntry>) -> (
    Seq<PlanStepView>,
    Option<WalkError>,
)
    decreases entries.len(),
{
    if entries.len() == 0 {
        (Seq::empty(), None)
    } else {
        let rest = entries.drop_first();
        match entries[0] {
            DirEntry::Broken => plan_of(src, dst, rest),
            DirEntry::Named { name, kind } => match kind {
                Option::None => (Seq::empty(), Some(WalkError::EntryType)),
                Option::Some(EntryKind::File) => {
                    let t = plan_of(src, dst, rest);
                    (
                        seq![PlanStepView::Copy { src: join_path(src, name@), dst: dst }] + t.0,
                        t.1,
                    )
                },
                Option::Some(EntryKind::Dir) => {
                    let t = plan_of(src, dst, rest);
                    (
                        seq![
                            PlanStepView::Enter {
                                src: join_path(src, name@),
                                dst: join_path(dst, name@),
                            },
                        ] + t.0,
                        t.1,
                    )
                },
                Option::Some(EntryKind::Other) => plan_of(src, dst, rest),
            },
        }
    }
}

/// The subdirectory tasks among a step list, in order.
pub open spec fn enters_of(steps: Seq<PlanStepView>) -> Seq<(Seq<char>, Seq<char>)>
    decreases steps.len(),
{
    if steps.len() == 0 {
        Seq::empty()
    } else {
        let rest = enters_of(steps.drop_first());
        match steps[0] {
            PlanStepView::Enter { src, dst } => seq![(src, dst)] + rest,
            PlanStepView::Copy { .. } => rest,
        }
    }
}

/// Appending one step appends its (possibly absent) subdirectory task.
proof fn lemma_enters_of_snoc(steps: Seq<PlanStepView>, x: PlanStepView)
    ensures
        enters_of(steps + seq![x]) == enters_of(steps) + (match x {
            PlanStepView::Enter { src, dst } => seq![(src, dst)],
            PlanStepView::Copy { .. } => Seq::empty(),
        }),
    decreases steps.len(),
{
    let e = steps + seq![x];
    let tail = (match x {
        PlanStepView::Enter { src, dst } => seq![(src, dst)],
        PlanStepView::Copy { .. } => Seq::<(Seq<char>, Seq<char>)>::empty(),
    });
    if steps.len() == 0 {
        assert(e[0] == x);
        assert(e.drop_first() =~= Seq::<PlanStepView>::empty());
        assert(enters_of(Seq::<PlanStepView>::empty()) =~= Seq::<(Seq<char>, Seq<char>)>::empty());
        assert(enters_of(e) =~= enters_of(steps) + tail);
    } else {
        lemma_enters_of_snoc(steps.drop_first(), x);
        assert(e[0] == steps[0]);
        assert(e.drop_first() =~= steps.drop_first() + seq![x]);
        assert(enters_of(e) =~= enters_of(steps) + tail);
    }
}

/// Joins a directory path and an entry name with a slash.
pub fn join_path_str(dir: &str, name: &str) -> (r: String)
    ensures
        r@ == join_path(dir@, name@),
{
    let r = String::from_str(dir).concat("/").concat(name);
    proof {
        reveal_strlit("/");
        assert(("/")@ =~= seq!['/']);
    }
    r
}

/// The per-directory result of [`Mirror::plan_dir`]: the steps to carry out
/// in order, then the failure that ends the walk, if one arose.
pub struct DirPlan {
    pub steps: Vec<PlanStep>,
    pub failure: Option<WalkError>,
}

/// The tree-mirror work list: pending `(source, destination)` directory
/// pairs, newest last.
pub struct Mirror {
    stack: Vec<(String, String)>,
}

impl Mirror {
    /// The pending directory tasks, oldest first.
    pub closed spec fn tasks(&self) -> Seq<(Seq<char>, Seq<char>)> {
        pairs_view(self.stack@)
    }

    /// A walk of `src_root`, mirrored under `dst_root`, neither visited yet.
    pub fn new(src_root: String, dst_root: String) -> (r: Mirror)
        ensures
            r.tasks() == seq![(src_root@, dst_root@)],
    {
        let mut stack: Vec<(String, String)> = Vec::new();
        stack.push((src_root, dst_root));
        let r = Mirror { stack };
        proof {
            assert(r.tasks() =~= seq![(src_root@, dst_root@)]);
        }
        r
    }

    /// The next directory to process, newest first; the walk is over when
    /// none is left.
    pub fn next_dir(&mut self) -> (r: Option<(String, String)>)
        ensures
            old(self).tasks().len() == 0 ==> r is None && final(self).tasks() == old(self).tasks(),
            old(self).tasks().len() > 0 ==> (match r {
                Some(p) => {
                    &&& (p.0@, p.1@) == old(self).tasks().last()
                    &&& final(self).tasks() == old(self).tasks().drop_last()
                },
                None => false,
            }),
    {
        let r = self.stack.pop();
        proof {
            if old(self).stack@.len() > 0 {
                assert(final(self).tasks() =~= old(self).tasks().drop_last());
            }
        }
        r
    }

    /// Turns one directory's listing into its plan: the steps to carry out
    /// in listing order, and the failure that ends the walk, if any.  A
    /// listing that could not be obtained at all fails with
    /// [`WalkError::DirectoryRead`]; a broken entry is skipped while its
    /// siblings are still processed; an entry of unknown kind cuts the plan
    /// short with [`WalkError::EntryType`].  Each subdirectory step is also
    /// pushed onto the work list.
    pub fn plan_dir(&mut self, src: &String, dst: &String, listing: Option<Vec<DirEntry>>) -> (r:
        DirPlan)
        ensures
            listing is None ==> {
                &&& r.steps@.len() == 0
                &&& r.failure == Some(WalkError::DirectoryRead)
                &&& final(self).tasks() == old(self).tasks()
            },
            listing matches Some(es) ==> {
                &&& steps_view(r.steps@) == plan_of(src@, dst@, es@).0
                &&& r.failure == plan_of(src@, dst@, es@).1
                &&& final(self).tasks() == old(self).tasks() + enters_of(steps_view(r.steps@))
            },
    {
        match listing {
            Option::None => {
                proof {
                    assert(final(self).tasks() == old(self).tasks());
                }
                DirPlan { steps: Vec::new(), failure: Some(WalkError::DirectoryRead) }
            },
            Option::Some(es) => {
                let ghost full = plan_of(src@, dst@, es@);
                let ghost stack0 = self.tasks();
                let mut steps: Vec<PlanStep> = Vec::new();
                let mut failure: Option<WalkError> = None;
                let mut i: usize = 0;
                proof {
                    assert(es@.skip(0) =~= es@);
                    assert(steps_view(steps@) + plan_of(src@, dst@, es@).0 =~= plan_of(
                        src@,
                        dst@,
                        es@,
                    ).0);
                    assert(enters_of(steps_view(steps@)) =~= Seq::<(Seq<char>, Seq<char>)>::empty());
                    assert(stack0 + enters_of(steps_view(steps@)) =~= stack0);
                }
                while i < es.len() && failure.is_none()
                    invariant
                        i <= es@.len(),
                        full == plan_of(src@, dst@, es@),
                        failure is None ==> {
                            &&& full.0 == steps_view(steps@) + plan_of(src@, dst@, es@.skip(
                                i as int,
                            )).0
                            &&& full.1 == plan_of(src@, dst@, es@.skip(i as int)).1
                        },
                        failure is Some ==> full == (steps_view(steps@), failure),
                        self.tasks() == stack0 + enters_of(steps_view(steps@)),
                    decreases es@.len() - i,
                {
                    let ghost rest = es@.skip(i as int);
                    let ghost steps0 = steps@;
                    proof {
                        assert(rest[0] == es@[i as int]);
                        assert(rest.drop_first() =~= es@.skip(i + 1));
                    }
                    match &es[i] {
                        DirEntry::Broken => {},
                        DirEntry::Named { name, kind } => {
                            match kind {
                                Option::None => {
                                    failure = Some(WalkError::EntryType);
                                },
                                Option::Some(EntryKind::File) => {
                                    let step = PlanStep::CopyFile {
                                        src: join_path_str(src.as_str(), name.as_str()),
                                        dst: dst.clone(),
                                    };
                                    proof {
                                        lemma_enters_of_snoc(steps_view(steps0), step@);
                                        assert(steps_view(steps0.push(step)) =~= steps_view(steps0)
                                            + seq![step@]);
                                        assert(enters_of(steps_view(steps0) + seq![step@]) =~= enters_of(
                                            steps_view(steps0),
                                        ));
                                    }
                                    steps.push(step);
                                },
                                Option::Some(EntryKind::Dir) => {
                                    let child_src = join_path_str(src.as_str(), name.as_str());
                                    let child_dst = join_path_str(dst.as_str(), name.as_str());
                                    let step = PlanStep::EnterDir {
                                        src: child_src.clone(),
                                        dst: child_dst.clone(),
                                    };
                                    proof {
                                        lemma_enters_of_snoc(steps_view(steps0), step@);
                                        assert(steps_view(steps0.push(step)) =~= steps_view(steps0)
                                            + seq![step@]);
                                    }
                                    steps.push(step);
                                    let ghost stack_before = self.stack@;
                                    self.stack.push((child_src, child_dst));
                                    proof {
                                        assert(pairs_view(self.stack@) =~= pairs_view(stack_before)
                                            + seq![(child_src@, child_dst@)]);
                                        assert(stack0 + (enters_of(steps_view(steps0)) + seq![
                                            (child_src@, child_dst@),
                                        ]) =~= (stack0 + enters_of(steps_view(steps0))) + seq![
                                            (child_src@, child_dst@),
                                        ]);
                                    }
                                },
                                Option::Some(EntryKind::Other) => {},
                            }
                        },
                    }
                    i = i + 1;
                }
                proof {
                    if failure is None {
                        assert(i == es@.len());
                        assert(es@.skip(i as int) =~= Seq::<DirEntry>::empty());
                        assert(plan_of(src@, dst@, es@.skip(i as int)).0 =~= Seq::<
                            PlanStepView,
                        >::empty());
                        assert(full.0 =~= steps_view(steps@));
                    }
                }
                DirPlan { steps, failure }
            },
        }
    }
}

/// Whether `output` is what the file pipeline produces from `input` under
/// the given pairs: the input decoded (UTF-8 when valid, lossy little-endian
/// UTF-16 otherwise), every pair applied in order to completion, and the
/// result encoded back under the same tag.
pub open spec fn transform_rel(
    pairs: Seq<(Seq<char>, Seq<char>)>,
    input: Seq<u8>,
    output: Seq<u8>,
) -> bool {
    exists|t0: Seq<char>, t1: Seq<char>, e: StrEncoding|
        {
            &&& #[trigger] all_applied(pairs, t0, t1)
            &&& (e == StrEncoding::Utf8 <==> valid_utf8(input))
            &&& (e == StrEncoding::Utf8 ==> t0 == decode_utf8(input))
            &&& (e == StrEncoding::Utf16 ==> t0 == utf16_chars_of(units_of_bytes(input)))
            &&& output == #[trigger] encoded_bytes(t1, e)
        }
}

/// The whole per-file pipeline: decode the raw bytes, apply every pair in
/// order to completion, and encode the result back under the encoding the
/// file was read with.
///
/// The last two clauses are the pipeline's round-trip guarantees: with no
/// pairs at all, valid UTF-8 input and lossless little-endian UTF-16 input
/// both come back byte-identical.
pub fn transform(pairs: Vec<(String, String)>, bytes: &Vec<u8>) -> (out: Vec<u8>)
    requires
        terminating_pairs(pairs@),
    ensures
        transform_rel(pairs_view(pairs@), bytes@, out@),
        pairs@.len() == 0 && valid_utf8(bytes@) ==> out@ == bytes@,
        pairs@.len() == 0 && lossless_utf16_bytes(bytes@) ==> out@ == bytes@,
{
    let ghost pv = pairs_view(pairs@);
    let decoded = decode_utf8_utf16(bytes);
    let enc = decoded.encoding();
    let ghost t0 = decoded@.text;
    let mut text = decoded.into_string();
    replace_all(pairs, &mut text);
    let ghost t1 = text@;
    let rewrapped = StrUtf816::new(text, enc);
    let out = encode_utf8_utf16(&rewrapped);
    proof {
        assert(all_applied(pv, t0, t1));
        assert(out@ == encoded_bytes(t1, enc));
        if pairs@.len() == 0 {
            let texts = choose|texts: Seq<Seq<char>>| chain_applied(pv, texts, t0, t1);
            assert(texts[0] == t0 && texts[pv.len() as int] == t1);
            assert(t1 == t0);
        }
    }
    out
}

/// The result of [`Printer::plan_dir`]: the entries to announce in listing
/// order — for a file the caller also shows its decoded text — then the
/// failure that ends the walk, if one arose.
pub struct PrintPlan {
    pub visits: Vec<(String, EntryKind)>,
    pub failure: Option<WalkError>,
}

/// The views of a visit list.
pub open spec fn visits_view(visits: Seq<(String, EntryKind)>) -> Seq<(Seq<char>, EntryKind)> {
    visits.map_values(|p: (String, EntryKind)| (p.0@, p.1))
}

/// The visits one directory's listing calls for in the diagnostic walk, and
/// the failure ending it, if any.  A broken entry is passed over while its
/// siblings are still visited; an entry of unknown kind cuts the walk short;
/// every other entry is visited under the directory path joined with its
/// name.
pub open spec fn print_plan_of(dir: Seq<char>, entries: Seq<DirEntry>) -> (
    Seq<(Seq<char>, EntryKind)>,
    Option<WalkError>,
)
    decreases entries.len(),
{
    if entries.len() == 0 {
        (Seq::empty(), None)
    } else {
        let rest = entries.drop_first();
        match entries[0] {
            DirEntry::Broken => print_plan_of(dir, rest),
            DirEntry::Named { name, kind } => match kind {
                Option::None => (Seq::empty(), Some(WalkError::EntryType)),
                Option::Some(k) => {
                    let t = print_plan_of(dir, rest);
                    (seq![(join_path(dir, name@), k)] + t.0, t.1)
                },
            },
        }
    }
}

/// The subdirectories among the visits, in order.
pub open spec fn dirs_of(visits: Seq<(Seq<char>, EntryKind)>) -> Seq<Seq<char>>
    decreases visits.len(),
{
    if visits.len() == 0 {
        Seq::empty()
    } else {
        let rest = dirs_of(visits.drop_first());
        if visits[0].1 is Dir {
            seq![visits[0].0] + rest
        } else {
            rest
        }
    }
}

/// Appending one visit appends its (possibly absent) subdirectory task.
proof fn lemma_dirs_of_snoc(visits: Seq<(Seq<char>, EntryKind)>, x: (Seq<char>, EntryKind))
    ensures
        dirs_of(visits + seq![x]) == dirs_of(visits) + (if x.1 is Dir {
            seq![x.0]
        } else {
            Seq::empty()
        }),
    decreases visits.len(),
{
    let e = visits + seq![x];
    let tail = (if x.1 is Dir {
        seq![x.0]
    } else {
        Seq::<Seq<char>>::empty()
    });
    if visits.len() == 0 {
        assert(e[0] == x);
        assert(e.drop_first() =~= Seq::<(Seq<char>, EntryKind)>::empty());
        assert(dirs_of(Seq::<(Seq<char>, EntryKind)>::empty()) =~= Seq::<Seq<char>>::empty());
        assert(dirs_of(e) =~= dirs_of(visits) + tail);
    } else {
        lemma_dirs_of_snoc(visits.drop_first(), x);
        assert(e[0] == visits[0]);
        assert(e.drop_first() =~= visits.drop_first() + seq![x]);
        assert(dirs_of(e) =~= dirs_of(visits) + tail);
    }
}

/// The diagnostic walk's work list: pending directory paths, newest last.
/// It decides the same way as [`Mirror`] but carries no destinations and
/// writes nothing: the caller announces each visit and shows each file's
/// decoded text.
pub struct Printer {
    stack: Vec<String>,
}

impl Printer {
    /// The pending directory paths, oldest first.
    pub closed spec fn tasks(&self) -> Seq<Seq<char>> {
        self.stack@.map_values(|p: String| p@)
    }

    /// A diagnostic walk of `root`, not visited yet.
    pub fn new(root: String) -> (r: Printer)
        ensures
            r.tasks() == seq![root@],
    {
        let mut stack: Vec<String> = Vec::new();
        stack.push(root);
        let r = Printer { stack };
        proof {
            assert(r.tasks() =~= seq![root@]);
        }
        r
    }

    /// The next directory to visit, newest first; the walk is over when none
    /// is left.
    pub fn next_dir(&mut self) -> (r: Option<String>)
        ensures
            old(self).tasks().len() == 0 ==> r is None && final(self).tasks() == old(self).tasks(),
            old(self).tasks().len() > 0 ==> (match r {
                Some(p) => {
                    &&& p@ == old(self).tasks().last()
                    &&& final(self).tasks() == old(self).tasks().drop_last()
                },
                None => false,
            }),
    {
        let r = self.stack.pop();
        proof {
            if old(self).stack@.len() > 0 {
                assert(final(self).tasks() =~= old(self).tasks().drop_last());
            }
        }
        r
    }

    /// Turns one directory's listing into its visits, in listing order, and
    /// the failure that ends the walk, if any; each subdirectory visit is
    /// also pushed onto the work list.  A listing that could not be obtained
    /// fails with [`WalkError::DirectoryRead`].
    pub fn plan_dir(&mut self, dir: &String, listing: Option<Vec<DirEntry>>) -> (r: PrintPlan)
        ensures
            listing is None ==> {
                &&& r.visits@.len() == 0
                &&& r.failure == Some(WalkError::DirectoryRead)
                &&& final(self).tasks() == old(self).tasks()
            },
            listing matches Some(es) ==> {
                &&& visits_view(r.visits@) == print_plan_of(dir@, es@).0
                &&& r.failure == print_plan_of(dir@, es@).1
                &&& final(self).tasks() == old(self).tasks() + dirs_of(visits_view(r.visits@))
            },
    {
        match listing {
            Option::None => {
                proof {
                    assert(final(self).tasks() == old(self).tasks());
                }
                PrintPlan { visits: Vec::new(), failure: Some(WalkError::DirectoryRead) }
            },
            Option::Some(es) => {
                let ghost full = print_plan_of(dir@, es@);
                let ghost stack0 = self.tasks();
                let mut visits: Vec<(String, EntryKind)> = Vec::new();
                let mut failure: Option<WalkError> = None;
                let mut i: usize = 0;
                proof {
                    assert(es@.skip(0) =~= es@);
                    assert(visits_view(visits@) + print_plan_of(dir@, es@).0 =~= print_plan_of(
                        dir@,
                        es@,
                    ).0);
                    assert(dirs_of(visits_view(visits@)) =~= Seq::<Seq<char>>::empty());
                    assert(stack0 + dirs_of(visits_view(visits@)) =~= stack0);
                }
                while i < es.len() && failure.is_none()
                    invariant
                        i <= es@.len(),
                        full == print_plan_of(dir@, es@),
                        failure is None ==> {
                            &&& full.0 == visits_view(visits@) + print_plan_of(
                                dir@,
                                es@.skip(i as int),
                            ).0
                            &&& full.1 == print_plan_of(dir@, es@.skip(i as int)).1
                        },
                        failure is Some ==> full == (visits_view(visits@), failure),
                        self.tasks() == stack0 + dirs_of(visits_view(visits@)),
                    decreases es@.len() - i,
                {
                    let ghost rest = es@.skip(i as int);
                    let ghost visits0 = visits@;
                    proof {
                        assert(rest[0] == es@[i as int]);
                        assert(rest.drop_first() =~= es@.skip(i + 1));
                    }
                    match &es[i] {
                        DirEntry::Broken => {},
                        DirEntry::Named { name, kind } => {
                            match kind {
                                Option::None => {
                                    failure = Some(WalkError::EntryType);
                                },
                                Option::Some(k) => {
                                    let path = join_path_str(dir.as_str(), name.as_str());
                                    let visit = (path.clone(), *k);
                                    proof {
                                        lemma_dirs_of_snoc(visits_view(visits0), (visit.0@, visit.1));
                                        assert(visits_view(visits0.push(visit)) =~= visits_view(
                                            visits0,
                                        ) + seq![(visit.0@, visit.1)]);
                                    }
                                    visits.push(visit);
                                    if let EntryKind::Dir = k {
                                        let ghost stack_before = self.stack@;
                                        self.stack.push(path);
                                        proof {
                                            assert(self.tasks() =~= stack_before.map_values(
                                                |p: String| p@,
                                            ) + seq![path@]);
                                            assert(stack0 + (dirs_of(visits_view(visits0)) + seq![
                                                path@,
                                            ]) =~= (stack0 + dirs_of(visits_view(visits0))) + seq![
                                                path@,
                                            ]);
                                        }
                                    }
                                },
                            }
                        },
                    }
                    i = i + 1;
                }
                proof {
                    if failure is None {
                        assert(i == es@.len());
                        assert(es@.skip(i as int) =~= Seq::<DirEntry>::empty());
                        assert(print_plan_of(dir@, es@.skip(i as int)).0 =~= Seq::<
                            (Seq<char>, EntryKind),
                        >::empty());
                        assert(full.0 =~= visits_view(visits@));
                    }
                }
                PrintPlan { visits, failure }
            },
        }
    }
}

} // verus!