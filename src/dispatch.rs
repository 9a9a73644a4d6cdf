//! What the dispatcher decides once every optimizer worker has finished:
//! which classes failed, which files go back to their earlier bytes
//! because optimizing them made them larger, and how many bytes were saved.
use vstd::prelude::*;
use crate::classify::OptimizerClass;

verus! {

/// How one bucket's worker ended.
#[derive(Clone, Copy, Debug, PartialEq, Eq, Structural)]
pub struct BucketOutcome {
    pub class: OptimizerClass,
    /// The optimizer ran and exited successfully on the whole bucket.
    pub succeeded: bool,
}

/// Whether an optimizer process of `class` that ended with `exit_code`
/// (`None` when it was killed by a signal) did its work. The PNG quantizer
/// ends with 98 or 99 when it left a file alone because the result would
/// have been larger or below quality: that is success too.
pub open spec fn exit_ok_spec(class: OptimizerClass, exit_code: Option<i32>) -> bool {
    match exit_code {
        Some(c) => c == 0 || (class == OptimizerClass::Png && (c == 98 || c == 99)),
        None => false,
    }
}

pub fn optimizer_succeeded(class: OptimizerClass, exit_code: Option<i32>) -> (r: bool)
    ensures
        r == exit_ok_spec(class, exit_code),
{
    match exit_code {
        Some(c) => c == 0 || (matches!(class, OptimizerClass::Png) && (c == 98 || c == 99)),
        None => false,
    }
}

/// The classes whose workers failed, in the order of `outcomes`.
pub open spec fn failed_spec(outcomes: Seq<BucketOutcome>) -> Seq<OptimizerClass> {
    outcomes.filter(|o: BucketOutcome| !o.succeeded).map_values(|o: BucketOutcome| o.class)
}

/// The classes whose workers failed; a failure of one bucket says
/// nothing of the others.
pub fn failed_classes(outcomes: &Vec<BucketOutcome>) -> (r: Vec<OptimizerClass>)
    ensures
        r@ == failed_spec(outcomes@),
{
    let ghost pred = |o: BucketOutcome| !o.succeeded;
    let mut r: Vec<OptimizerClass> = Vec::new();
    let mut i: usize = 0;
    assert(outcomes@.subrange(0, 0) =~= Seq::<BucketOutcome>::empty());
    while i < outcomes.len()
        invariant
            i <= outcomes.len(),
            pred == (|o: BucketOutcome| !o.succeeded),
            r@ == outcomes@.subrange(0, i as int).filter(pred).map_values(
                |o: BucketOutcome| o.class,
            ),
        decreases outcomes.len() - i,
    {
        let o = outcomes[i];
        let ghost pre = outcomes@.subrange(0, i as int);
        assert(outcomes@.subrange(0, i + 1) =~= pre.push(o));
        proof {
            pre.lemma_filter_push(o, pred);
        }
        if !o.succeeded {
            r.push(o.class);
        }
        assert(r@ =~= pre.push(o).filter(pred).map_values(|o: BucketOutcome| o.class));
        i = i + 1;
    }
    assert(outcomes@.subrange(0, outcomes.len() as int) =~= outcomes@);
    r
}

/// Failures are scoped to their class: when the worker of one bucket
/// failed and every other worker succeeded, that class alone is reported.
pub proof fn lemma_failure_scoped(outcomes: Seq<BucketOutcome>, k: int)
    requires
        0 <= k < outcomes.len(),
        !outcomes[k].succeeded,
        forall|i: int| 0 <= i < outcomes.len() && i != k ==> (#[trigger] outcomes[i]).succeeded,
    ensures
        failed_spec(outcomes) == seq![outcomes[k].class],
{
    let pred = |o: BucketOutcome| !o.succeeded;
    lemma_filter_single(outcomes, k, pred);
    assert(seq![outcomes[k]].map_values(|o: BucketOutcome| o.class) =~= seq![outcomes[k].class]);
}

proof fn lemma_filter_single(s: Seq<BucketOutcome>, k: int, pred: spec_fn(BucketOutcome) -> bool)
    requires
        0 <= k < s.len(),
        pred == (|o: BucketOutcome| !o.succeeded),
        !s[k].succeeded,
        forall|i: int| 0 <= i < s.len() && i != k ==> (#[trigger] s[i]).succeeded,
    ensures
        s.filter(pred) == seq![s[k]],
    decreases s.len(),
{
    let init = s.drop_last();
    assert(init.push(s.last()) =~= s);
    init.lemma_filter_push(s.last(), pred);
    if k == s.len() - 1 {
        lemma_filter_none(init, pred);
        assert(Seq::<BucketOutcome>::empty().push(s[k]) =~= seq![s[k]]);
    } else {
        assert forall|i: int| 0 <= i < init.len() && i != k implies (#[trigger] init[i]).succeeded by {
            assert(init[i] == s[i]);
        }
        lemma_filter_single(init, k, pred);
        assert(s.last().succeeded);
    }
}

proof fn lemma_filter_none(s: Seq<BucketOutcome>, pred: spec_fn(BucketOutcome) -> bool)
    requires
        pred == (|o: BucketOutcome| !o.succeeded),
        forall|i: int| 0 <= i < s.len() ==> (#[trigger] s[i]).succeeded,
    ensures
        s.filter(pred) == Seq::<BucketOutcome>::empty(),
    decreases s.len(),
{
    if s.len() > 0 {
        let init = s.drop_last();
        assert(init.push(s.last()) =~= s);
        init.lemma_filter_push(s.last(), pred);
        assert forall|i: int| 0 <= i < init.len() implies (#[trigger] init[i]).succeeded by {
            assert(init[i] == s[i]);
        }
        lemma_filter_none(init, pred);
        assert(s[s.len() - 1].succeeded);
    }
}

/// Sizes of one file before and after its optimizer ran.
#[derive(Debug)]
pub struct FileSizes {
    pub path: String,
    pub before: u64,
    pub after: u64,
}

/// The regression guard: an optimized file is kept only when it is not
/// larger than before.
pub open spec fn keeps_optimized(f: FileSizes) -> bool {
    f.after <= f.before
}

/// The size a file ends with once the guard has been applied.
pub open spec fn guarded_size(f: FileSizes) -> u64 {
    if keeps_optimized(f) {
        f.after
    } else {
        f.before
    }
}

/// Bytes saved over `files`, the guard applied to each.
pub open spec fn saved_spec(files: Seq<FileSizes>) -> nat
    decreases files.len(),
{
    if files.len() == 0 {
        0
    } else {
        let f = files.last();
        saved_spec(files.drop_last()) + (f.before - guarded_size(f)) as nat
    }
}

/// The outcome of the guard over a bucket's files.
pub struct SizeReport {
    /// Each file with the size it ends with, in the order given.
    pub files: Vec<FileSizes>,
    /// The files whose bytes before optimization must be put back.
    pub restore: Vec<String>,
    /// Bytes saved over all files.
    pub saved: u128,
}

/// The paths of the files that grew.
pub open spec fn grown(files: Seq<FileSizes>) -> Seq<Seq<char>> {
    files.filter(|f: FileSizes| !keeps_optimized(f)).map_values(|f: FileSizes| f.path@)
}

/// Whether a file that measured `after` bytes once optimized, and `before`
/// bytes earlier, keeps its optimized bytes.
pub fn keep_optimized(before: u64, after: u64) -> (r: bool)
    ensures
        r == (after <= before),
{
    after <= before
}

/// Applies the regression guard to each file and totals the savings.
pub fn settle_sizes(files: &Vec<FileSizes>) -> (r: SizeReport)
    ensures
        r.files@.len() == files@.len(),
        forall|i: int|
            0 <= i < files@.len() ==> {
                &&& (#[trigger] r.files@[i]).path@ == files@[i].path@
                &&& r.files@[i].before == files@[i].before
                &&& r.files@[i].after == guarded_size(files@[i])
                &&& r.files@[i].after <= r.files@[i].before
            },
        r.restore@.map_values(|s: String| s@) == grown(files@),
        r.saved == saved_spec(files@),
        r.saved == saved_spec(r.files@),
{
    let ghost pred = |f: FileSizes| !keeps_optimized(f);
    let mut out: Vec<FileSizes> = Vec::new();
    let mut restore: Vec<String> = Vec::new();
    let mut saved: u128 = 0;
    let mut i: usize = 0;
    assert(files@.subrange(0, 0) =~= Seq::<FileSizes>::empty());
    while i < files.len()
        invariant
            i <= files.len(),
            pred == (|f: FileSizes| !keeps_optimized(f)),
            out@.len() == i,
            forall|k: int|
                0 <= k < i ==> {
                    &&& (#[trigger] out@[k]).path@ == files@[k].path@
                    &&& out@[k].before == files@[k].before
                    &&& out@[k].after == guarded_size(files@[k])
                },
            restore@.map_values(|s: String| s@) == files@.subrange(0, i as int).filter(
                pred,
            ).map_values(|f: FileSizes| f.path@),
            saved == saved_spec(files@.subrange(0, i as int)),
            saved == saved_spec(out@),
            saved <= i * 0xffff_ffff_ffff_ffffnat,
        decreases files.len() - i,
    {
        let f = &files[i];
        let ghost pre = files@.subrange(0, i as int);
        assert(files@.subrange(0, i + 1) =~= pre.push(*f));
        assert(files@.subrange(0, i + 1).drop_last() =~= pre);
        proof {
            pre.lemma_filter_push(*f, pred);
        }
        let keep = keep_optimized(f.before, f.after);
        let after = if keep {
            f.after
        } else {
            f.before
        };
        if !keep {
            let ghost rv = restore@;
            restore.push(f.path.clone());
            assert(restore@.map_values(|s: String| s@) =~= rv.map_values(|s: String| s@).push(
                f.path@,
            ));
            assert(pre.push(*f).filter(pred).map_values(|f: FileSizes| f.path@) =~= pre.filter(
                pred,
            ).map_values(|f: FileSizes| f.path@).push(f.path@));
        } else {
            assert(pre.push(*f).filter(pred) == pre.filter(pred));
        }
        let ghost old_out = out@;
        let g = FileSizes { path: f.path.clone(), before: f.before, after };
        out.push(g);
        assert(out@.drop_last() =~= old_out);
        assert(saved + (f.before - after) <= (i + 1) * 0xffff_ffff_ffff_ffffnat) by (nonlinear_arith)
            requires
                saved <= i * 0xffff_ffff_ffff_ffffnat,
                f.before - after <= 0xffff_ffff_ffff_ffffnat,
        ;
        saved = saved + (f.before - after) as u128;
        i = i + 1;
    }
    assert(files@.subrange(0, files.len() as int) =~= files@);
    SizeReport { files: out, restore, saved }
}

} // verus!
