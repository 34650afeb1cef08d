//! Compilation: which toolchain runs a build needs, and what their outcomes
//! amount to. The runs themselves are the caller's.

use vstd::prelude::*;
use crate::paths::{extension, extension_of, object_path, object_path_of};
use crate::text::{contains_string, copy_strings, string_views};
use crate::unit::{DefinitionView, SourceUnit, SourceUnitView, unit_views};

verus! {

/// How a run of the toolchain failed.
#[derive(Clone, Copy, Debug, PartialEq, Eq)]
pub enum ExitInfo {
    /// The toolchain ended with this status, which is not 0.
    Status { code: i32 },
    /// The toolchain was ended from outside and left no status.
    Killed,
    /// The toolchain could not be started.
    NotStarted,
    /// The toolchain did not end in the time it was given.
    TimedOut,
    /// The toolchain ended with status 0 and left no object, or an empty one.
    EmptyObject,
    /// The toolchain was not run for this file.
    NotRun,
}

/// What a run of the toolchain for one file came to.
#[derive(Clone, Copy, Debug, PartialEq, Eq)]
pub enum ToolOutcome {
    /// The toolchain ended with `code`; the object file now has
    /// `object_size` bytes, 0 where there is none.
    Exited { code: i32, object_size: u64 },
    /// The toolchain was ended from outside and left no status.
    Killed,
    /// The toolchain could not be started.
    NotStarted,
    /// The toolchain did not end in the time it was given.
    TimedOut,
}

/// Why a build does not reach resolution.
#[derive(Clone, Debug, PartialEq, Eq)]
pub enum CompileError {
    /// The input is no source file.
    UnsupportedInput { path: String },
    /// An earlier input has the same object file, which is `path`.
    DuplicateOutput { path: String },
    /// The toolchain failed on the source file `path`.
    ToolchainError { path: String, exit_info: ExitInfo },
}

/// The mathematical value of a `CompileError`.
pub enum CompileErrorView {
    UnsupportedInput { path: Seq<char> },
    DuplicateOutput { path: Seq<char> },
    ToolchainError { path: Seq<char>, exit_info: ExitInfo },
}

impl View for CompileError {
    type V = CompileErrorView;

    open spec fn view(&self) -> CompileErrorView {
        match self {
            CompileError::UnsupportedInput { path } => CompileErrorView::UnsupportedInput {
                path: path@,
            },
            CompileError::DuplicateOutput { path } => CompileErrorView::DuplicateOutput {
                path: path@,
            },
            CompileError::ToolchainError { path, exit_info } => CompileErrorView::ToolchainError {
                path: path@,
                exit_info: *exit_info,
            },
        }
    }
}

/// The values of a list of errors, in order.
pub open spec fn compile_error_views(errors: Seq<CompileError>) -> Seq<CompileErrorView> {
    errors.map_values(|e: CompileError| e@)
}

/// One run of the toolchain: the source file, the object file to make of
/// it, and the arguments to hand over.
#[derive(Clone, Debug, PartialEq, Eq)]
pub struct CompileJob {
    pub source: String,
    pub object: String,
    pub arguments: Vec<String>,
}

/// The mathematical value of a `CompileJob`.
pub struct CompileJobView {
    pub source: Seq<char>,
    pub object: Seq<char>,
    pub arguments: Seq<Seq<char>>,
}

impl View for CompileJob {
    type V = CompileJobView;

    open spec fn view(&self) -> CompileJobView {
        CompileJobView {
            source: self.source@,
            object: self.object@,
            arguments: string_views(self.arguments@),
        }
    }
}

/// The values of a list of jobs, in order.
pub open spec fn job_views(jobs: Seq<CompileJob>) -> Seq<CompileJobView> {
    jobs.map_values(|j: CompileJob| j@)
}

/// Whether `path` names a source file: its extension is `c`.
pub open spec fn is_source(path: Seq<char>) -> bool {
    extension(path) == Some("c"@)
}

/// Whether a source file before input `i` has the object file of input `i`.
pub open spec fn output_taken(sources: Seq<Seq<char>>, build_dir: Seq<char>, i: int) -> bool {
    exists|j: int|
        0 <= j < i && is_source(#[trigger] sources[j]) && object_path(build_dir, sources[j])
            == object_path(build_dir, sources[i])
}

/// What is wrong with input `i`, if anything.
pub open spec fn input_fault(sources: Seq<Seq<char>>, build_dir: Seq<char>, i: int) -> Option<
    CompileErrorView,
> {
    if !is_source(sources[i]) {
        Some(CompileErrorView::UnsupportedInput { path: sources[i] })
    } else if output_taken(sources, build_dir, i) {
        Some(CompileErrorView::DuplicateOutput { path: object_path(build_dir, sources[i]) })
    } else {
        None
    }
}

/// What is wrong with the first `k` inputs, in their order.
pub open spec fn input_faults(sources: Seq<Seq<char>>, build_dir: Seq<char>, k: int) -> Seq<
    CompileErrorView,
>
    decreases k,
{
    if k <= 0 {
        Seq::<CompileErrorView>::empty()
    } else {
        match input_fault(sources, build_dir, k - 1) {
            Some(e) => input_faults(sources, build_dir, k - 1).push(e),
            None => input_faults(sources, build_dir, k - 1),
        }
    }
}

/// The arguments of one run: the caller's flags, the flags of the target
/// architecture, and the request to compile `source` into `object`.
pub open spec fn arguments_for(
    extra_flags: Seq<Seq<char>>,
    arch_flags: Seq<Seq<char>>,
    source: Seq<char>,
    object: Seq<char>,
) -> Seq<Seq<char>> {
    extra_flags + arch_flags + seq!["-c"@, source, "-o"@, object]
}

/// The run for `source`.
pub open spec fn job_for(
    source: Seq<char>,
    build_dir: Seq<char>,
    extra_flags: Seq<Seq<char>>,
    arch_flags: Seq<Seq<char>>,
) -> CompileJobView {
    CompileJobView {
        source,
        object: object_path(build_dir, source),
        arguments: arguments_for(extra_flags, arch_flags, source, object_path(build_dir, source)),
    }
}

/// The arguments of one run.
fn arguments_of(
    extra_flags: &Vec<String>,
    arch_flags: &Vec<String>,
    source: &String,
    object: &String,
) -> (r: Vec<String>)
    ensures
        string_views(r@) == arguments_for(
            string_views(extra_flags@),
            string_views(arch_flags@),
            source@,
            object@,
        ),
{
    let mut r = copy_strings(extra_flags);
    let mut i: usize = 0;
    while i < arch_flags.len()
        invariant
            i <= arch_flags@.len(),
            string_views(r@) == string_views(extra_flags@) + string_views(arch_flags@).take(
                i as int,
            ),
        decreases arch_flags@.len() - i,
    {
        let ghost before = r@;
        r.push(arch_flags[i].clone());
        proof {
            assert(string_views(r@) == string_views(before).push(arch_flags@[i as int]@));
            assert(string_views(arch_flags@).take(i + 1) == string_views(arch_flags@).take(
                i as int,
            ).push(arch_flags@[i as int]@));
        }
        i += 1;
    }
    proof {
        assert(string_views(arch_flags@).take(arch_flags@.len() as int) == string_views(
            arch_flags@,
        ));
    }
    let ghost flags = string_views(r@);
    r.push("-c".to_owned());
    r.push(source.clone());
    r.push("-o".to_owned());
    r.push(object.clone());
    proof {
        assert(string_views(r@) == flags + seq!["-c"@, source@, "-o"@, object@]);
    }
    r
}

/// Plans the compilation of `sources` into `build_dir`: one run of the
/// toolchain for each, in order. There is no plan where an input is no
/// source file or two inputs have the same object file; every such input is
/// reported, in order, and the toolchain is to run for none.
pub fn plan(
    sources: &Vec<String>,
    build_dir: &str,
    extra_flags: &Vec<String>,
    arch_flags: &Vec<String>,
) -> (r: Result<Vec<CompileJob>, Vec<CompileError>>)
    ensures
        ({
            let faults = input_faults(string_views(sources@), build_dir@, sources@.len() as int);
            match r {
                Ok(jobs) => faults.len() == 0 && job_views(jobs@) == Seq::new(
                    sources@.len(),
                    |i: int|
                        job_for(
                            sources@[i]@,
                            build_dir@,
                            string_views(extra_flags@),
                            string_views(arch_flags@),
                        ),
                ),
                Err(errors) => errors@.len() > 0 && compile_error_views(errors@) == faults,
            }
        }),
{
    let ghost inputs = string_views(sources@);
    let wanted: String = "c".to_owned();
    let mut jobs: Vec<CompileJob> = Vec::new();
    let mut errors: Vec<CompileError> = Vec::new();
    let mut claimed: Vec<String> = Vec::new();
    let mut i: usize = 0;
    while i < sources.len()
        invariant
            i <= sources@.len(),
            inputs == string_views(sources@),
            wanted@ == "c"@,
            compile_error_views(errors@) == input_faults(inputs, build_dir@, i as int),
            forall|path: Seq<char>|
                string_views(claimed@).contains(path) <==> exists|j: int|
                    0 <= j < i && is_source(#[trigger] inputs[j]) && object_path(
                        build_dir@,
                        inputs[j],
                    ) == path,
            errors@.len() == 0 ==> jobs@.len() == i,
            errors@.len() == 0 ==> forall|k: int|
                0 <= k < i ==> (#[trigger] jobs@[k])@ == job_for(
                    inputs[k],
                    build_dir@,
                    string_views(extra_flags@),
                    string_views(arch_flags@),
                ),
        decreases sources@.len() - i,
    {
        let source = &sources[i];
        assert(source@ == inputs[i as int]);
        let ghost before = errors@;
        let ghost claimed_before = string_views(claimed@);
        let supported: bool = match extension_of(source.as_str()) {
            Some(found) => found == wanted,
            None => false,
        };
        assert(supported == is_source(source@));
        if !supported {
            errors.push(CompileError::UnsupportedInput { path: source.clone() });
            proof {
                assert(compile_error_views(errors@) == compile_error_views(before).push(
                    errors@.last()@,
                ));
                assert forall|path: Seq<char>|
                    string_views(claimed@).contains(path) <==> exists|j: int|
                        0 <= j < i + 1 && is_source(#[trigger] inputs[j]) && object_path(
                            build_dir@,
                            inputs[j],
                        ) == path by {
                    if exists|j: int|
                        0 <= j < i + 1 && is_source(#[trigger] inputs[j]) && object_path(
                            build_dir@,
                            inputs[j],
                        ) == path {
                        let j = choose|j: int|
                            0 <= j < i + 1 && is_source(#[trigger] inputs[j]) && object_path(
                                build_dir@,
                                inputs[j],
                            ) == path;
                        assert(j < i);
                    }
                }
            }
        } else {
            let object = object_path_of(build_dir, source.as_str());
            let taken: bool = contains_string(&claimed, &object);
            assert(taken == output_taken(inputs, build_dir@, i as int));
            if taken {
                errors.push(CompileError::DuplicateOutput { path: object.clone() });
                proof {
                    assert(compile_error_views(errors@) == compile_error_views(before).push(
                        errors@.last()@,
                    ));
                }
            } else if errors.len() == 0 {
                let arguments = arguments_of(extra_flags, arch_flags, source, &object);
                jobs.push(CompileJob { source: source.clone(), object: object.clone(), arguments });
            }
            claimed.push(object);
            proof {
                let now = string_views(claimed@);
                let new_path = object_path(build_dir@, inputs[i as int]);
                assert(now == claimed_before.push(new_path));
                assert forall|path: Seq<char>| now.contains(path) <==> exists|j: int|
                    0 <= j < i + 1 && is_source(#[trigger] inputs[j]) && object_path(
                        build_dir@,
                        inputs[j],
                    ) == path by {
                    if now.contains(path) {
                        let k = choose|k: int| 0 <= k < now.len() && now[k] == path;
                        if k < claimed_before.len() {
                            assert(claimed_before[k] == path);
                            assert(claimed_before.contains(path));
                            let j = choose|j: int|
                                0 <= j < i && is_source(#[trigger] inputs[j]) && object_path(
                                    build_dir@,
                                    inputs[j],
                                ) == path;
                            assert(0 <= j < i + 1);
                        } else {
                            assert(is_source(inputs[i as int]));
                        }
                    }
                    if exists|j: int|
                        0 <= j < i + 1 && is_source(#[trigger] inputs[j]) && object_path(
                            build_dir@,
                            inputs[j],
                        ) == path {
                        let j = choose|j: int|
                            0 <= j < i + 1 && is_source(#[trigger] inputs[j]) && object_path(
                                build_dir@,
                                inputs[j],
                            ) == path;
                        if j < i {
                            assert(claimed_before.contains(path));
                            let k = choose|k: int|
                                0 <= k < claimed_before.len() && claimed_before[k] == path;
                            assert(now[k] == path);
                        } else {
                            assert(now[now.len() - 1] == path);
                        }
                    }
                }
            }
        }
        i += 1;
    }
    if errors.len() == 0 {
        proof {
            assert(job_views(jobs@) == Seq::new(
                sources@.len(),
                |k: int|
                    job_for(
                        sources@[k]@,
                        build_dir@,
                        string_views(extra_flags@),
                        string_views(arch_flags@),
                    ),
            ));
        }
        Ok(jobs)
    } else {
        Err(errors)
    }
}

/// How `outcome` failed, if it did: a run succeeds where the toolchain
/// ended with status 0 and left an object that is not empty.
pub open spec fn failure_of(outcome: ToolOutcome) -> Option<ExitInfo> {
    match outcome {
        ToolOutcome::Exited { code, object_size } => if code != 0 {
            Some(ExitInfo::Status { code })
        } else if object_size == 0 {
            Some(ExitInfo::EmptyObject)
        } else {
            None
        },
        ToolOutcome::Killed => Some(ExitInfo::Killed),
        ToolOutcome::NotStarted => Some(ExitInfo::NotStarted),
        ToolOutcome::TimedOut => Some(ExitInfo::TimedOut),
    }
}

/// Whether `outcome` makes further runs futile: the toolchain could not be
/// started.
pub open spec fn is_terminal(outcome: ToolOutcome) -> bool {
    outcome is NotStarted
}

/// How the run of job `i` failed, if it did; a job without an outcome was
/// not run.
pub open spec fn failure_at(outcomes: Seq<ToolOutcome>, i: int) -> Option<ExitInfo> {
    if 0 <= i < outcomes.len() {
        failure_of(outcomes[i])
    } else {
        Some(ExitInfo::NotRun)
    }
}

/// The failures of the first `k` jobs, in their order.
pub open spec fn run_failures(jobs: Seq<CompileJobView>, outcomes: Seq<ToolOutcome>, k: int) -> Seq<
    CompileErrorView,
>
    decreases k,
{
    if k <= 0 {
        Seq::<CompileErrorView>::empty()
    } else {
        match failure_at(outcomes, k - 1) {
            Some(exit_info) => run_failures(jobs, outcomes, k - 1).push(
                CompileErrorView::ToolchainError { path: jobs[k - 1].source, exit_info },
            ),
            None => run_failures(jobs, outcomes, k - 1),
        }
    }
}

/// The unit of a job that succeeded; its definitions are not yet read.
pub open spec fn unit_for(job: CompileJobView) -> SourceUnitView {
    SourceUnitView {
        source: job.source,
        object: job.object,
        definitions: Seq::<DefinitionView>::empty(),
    }
}

/// The job to run next, given the outcomes of the jobs before it.
pub open spec fn next_job(job_count: int, outcomes: Seq<ToolOutcome>) -> Option<int> {
    if outcomes.len() < job_count && forall|i: int|
        0 <= i < outcomes.len() ==> !is_terminal(#[trigger] outcomes[i]) {
        Some(outcomes.len() as int)
    } else {
        None
    }
}

/// How `outcome` failed, if it did.
pub fn classify(outcome: ToolOutcome) -> (r: Option<ExitInfo>)
    ensures
        r == failure_of(outcome),
{
    match outcome {
        ToolOutcome::Exited { code, object_size } => if code != 0 {
            Some(ExitInfo::Status { code })
        } else if object_size == 0 {
            Some(ExitInfo::EmptyObject)
        } else {
            None
        },
        ToolOutcome::Killed => Some(ExitInfo::Killed),
        ToolOutcome::NotStarted => Some(ExitInfo::NotStarted),
        ToolOutcome::TimedOut => Some(ExitInfo::TimedOut),
    }
}

/// Decides which job to run next. Jobs run in order, each after the
/// outcome of the one before it is known; a failure does not stop the jobs
/// behind it, unless it shows that the toolchain cannot be started.
pub fn launch_next(job_count: usize, outcomes: &Vec<ToolOutcome>) -> (r: Option<usize>)
    ensures
        match r {
            Some(i) => next_job(job_count as int, outcomes@) == Some(i as int),
            None => next_job(job_count as int, outcomes@) is None,
        },
{
    if outcomes.len() >= job_count {
        return None;
    }
    let mut i: usize = 0;
    while i < outcomes.len()
        invariant
            i <= outcomes@.len(),
            forall|k: int| 0 <= k < i ==> !is_terminal(#[trigger] outcomes@[k]),
        decreases outcomes@.len() - i,
    {
        match outcomes[i] {
            ToolOutcome::NotStarted => {
                return None;
            },
            _ => {},
        }
        i += 1;
    }
    Some(outcomes.len())
}

/// Gathers the outcomes of the runs: `outcomes[i]` is that of `jobs[i]`,
/// and a job without an outcome was not run. Where every job succeeded
/// there is one unit for each, in the order of the jobs; otherwise every
/// failure is reported, in that order.
pub fn collect(jobs: &Vec<CompileJob>, outcomes: &Vec<ToolOutcome>) -> (r: Result<
    Vec<SourceUnit>,
    Vec<CompileError>,
>)
    ensures
        ({
            let failures = run_failures(job_views(jobs@), outcomes@, jobs@.len() as int);
            match r {
                Ok(units) => failures.len() == 0 && unit_views(units@) == Seq::new(
                    jobs@.len(),
                    |i: int| unit_for(jobs@[i]@),
                ),
                Err(errors) => errors@.len() > 0 && compile_error_views(errors@) == failures,
            }
        }),
{
    let ghost views = job_views(jobs@);
    let mut units: Vec<SourceUnit> = Vec::new();
    let mut errors: Vec<CompileError> = Vec::new();
    let mut i: usize = 0;
    while i < jobs.len()
        invariant
            i <= jobs@.len(),
            views == job_views(jobs@),
            compile_error_views(errors@) == run_failures(views, outcomes@, i as int),
            errors@.len() == 0 ==> units@.len() == i,
            errors@.len() == 0 ==> forall|k: int|
                0 <= k < i ==> (#[trigger] units@[k])@ == unit_for(views[k]),
        decreases jobs@.len() - i,
    {
        let job = &jobs[i];
        assert(views[i as int] == job@);
        let failure: Option<ExitInfo> = if i < outcomes.len() {
            classify(outcomes[i])
        } else {
            Some(ExitInfo::NotRun)
        };
        assert(failure == failure_at(outcomes@, i as int));
        let ghost before = errors@;
        match failure {
            Some(exit_info) => {
                errors.push(CompileError::ToolchainError { path: job.source.clone(), exit_info });
                proof {
                    assert(compile_error_views(errors@) == compile_error_views(before).push(
                        errors@.last()@,
                    ));
                }
            },
            None => {
                if errors.len() == 0 {
                    let ghost earlier = units@;
                    let unit = SourceUnit {
                        source: job.source.clone(),
                        object: job.object.clone(),
                        definitions: Vec::new(),
                    };
                    proof {
                        assert(unit@.definitions == Seq::<DefinitionView>::empty());
                        assert(unit@ == unit_for(views[i as int]));
                    }
                    units.push(unit);
                    proof {
                        assert forall|k: int| 0 <= k < i + 1 implies (#[trigger] units@[k])@
                            == unit_for(views[k]) by {
                            if k < i {
                                assert(units@[k] == earlier[k]);
                            }
                        }
                    }
                }
            },
        }
        i += 1;
    }
    if errors.len() == 0 {
        proof {
            assert(unit_views(units@) == Seq::new(jobs@.len(), |k: int| unit_for(jobs@[k]@)));
        }
        Ok(units)
    } else {
        Err(errors)
    }
}

} // verus!
