//! `sic install`, `sic upgrade`, `sic remove` and `sic resolve-only`: from what was loaded to what
//! is to be done.

use vstd::prelude::*;
use vstd::string::*;

use crate::cli::args;
use crate::cli::args::{GlobalOpts, LockfileModeArg};
use crate::cli::output;
use crate::cli::output::{Output, OutputView, EXIT_EXEC, EXIT_OTHER, EXIT_RESOLVER};
use crate::cli::plan_output;
use crate::failure::{
    FailureSerializeError, FailureSerializeErrorView, OutputFormat, ResolverFailure,
    ResolverFailureView,
};
use crate::manifest::{Manifest, ManifestView};
use crate::package_name;
use crate::package_name::PackageName;
use crate::resolver::available;
use crate::resolver::available::{AvailablePackages, Index};
use crate::resolver::plan::{
    LockfileInput, LockfileInputView, LockfileMode, Plan, PlanAction, PlanStepView, PlanView,
    Request, RequestView,
};
use crate::resolver::request;
use crate::storage::installed::{InstalledEntryView, InstalledLoadErrorView};
use crate::storage::lockfile::{LockfileLoadErrorView, LockfilePackageView};
use crate::storage::{InstalledDb, InstalledLoadError, Lockfile, LockfileLoadError};
use crate::system_packages::SystemPackages;
use crate::term;
use crate::text::Text;
use crate::views;

verus! {

/// What was loaded for a command. The lockfile is `Ok(None)` where there is none, or where the
/// command does not use it.
#[derive(Debug)]
pub struct Loaded {
    /// The packages dir, as it is displayed.
    pub packages_dir: String,
    pub packages: Result<Vec<Manifest>, String>,
    pub installed: Result<InstalledDb, InstalledLoadError>,
    /// The lockfile path, as it is displayed.
    pub lockfile_path: String,
    pub lockfile: Result<Option<Lockfile>, LockfileLoadError>,
    pub system: SystemPackages,
}

/// What a [`Loaded`] holds.
pub struct LoadedView {
    pub packages_dir: Text,
    pub packages: Result<Seq<ManifestView>, Text>,
    pub installed: Result<Seq<InstalledEntryView>, InstalledLoadErrorView>,
    pub lockfile_path: Text,
    pub lockfile: Result<Option<Seq<LockfilePackageView>>, LockfileLoadErrorView>,
    pub system: Seq<(Text, Text)>,
}

impl DeepView for Loaded {
    type V = LoadedView;

    open spec fn deep_view(&self) -> LoadedView {
        LoadedView {
            packages_dir: self.packages_dir@,
            packages: views::result_view(self.packages),
            installed: views::result_view(self.installed),
            lockfile_path: self.lockfile_path@,
            lockfile: views::result_view(self.lockfile),
            system: self.system@,
        }
    }
}

/// What a command works on.
#[derive(Debug)]
pub struct Workspace {
    pub available: AvailablePackages,
    pub installed: InstalledDb,
    pub lockfile: Option<Lockfile>,
    pub mode: LockfileMode,
    pub system: SystemPackages,
}

/// What a [`Workspace`] holds.
pub struct WorkspaceView {
    pub available: Index,
    pub installed: Seq<InstalledEntryView>,
    pub lockfile: Option<Seq<LockfilePackageView>>,
    pub mode: LockfileMode,
    pub system: Seq<(Text, Text)>,
}

impl DeepView for Workspace {
    type V = WorkspaceView;

    open spec fn deep_view(&self) -> WorkspaceView {
        WorkspaceView {
            available: self.available@,
            installed: self.installed@,
            lockfile: self.lockfile.deep_view(),
            mode: self.mode,
            system: self.system@,
        }
    }
}

impl View for Workspace {
    type V = WorkspaceView;

    open spec fn view(&self) -> WorkspaceView {
        self.deep_view()
    }
}

/// The workspace of what was loaded, or the message of what could not be: the packages (which may
/// be none only where that is allowed), the installed packages, the lockfile.
pub open spec fn workspace_of(
    loaded: LoadedView,
    mode: LockfileModeArg,
    allow_no_packages: bool,
) -> Result<WorkspaceView, Text> {
    match (loaded.packages, loaded.installed, loaded.lockfile) {
        (Err(e), _, _) => Err(output::unreadable_packages(loaded.packages_dir, e)),
        (Ok(packages), installed, lockfile) => if packages.len() == 0 && !allow_no_packages {
            Err(output::no_packages(loaded.packages_dir))
        } else {
            match (installed, lockfile) {
                (Err(e), _) => Err(output::unloadable_installed(e)),
                (Ok(_), Err(e)) => Err(output::unloadable_lockfile(loaded.lockfile_path, e)),
                (Ok(installed), Ok(lockfile)) => Ok(
                    WorkspaceView {
                        available: available::indexed(packages),
                        installed,
                        lockfile,
                        mode: args::mode_of(mode),
                        system: loaded.system,
                    },
                ),
            }
        },
    }
}

/// The workspace of what was loaded for a command, or the message of what could not be.
pub fn open_workspace(global: &GlobalOpts, loaded: Loaded, allow_no_packages: bool) -> (r: Result<
    Workspace,
    String,
>)
    ensures
        views::result_view(r) == workspace_of(
            loaded.deep_view(),
            global.lockfile_mode,
            allow_no_packages,
        ),
{
    let packages = match loaded.packages {
        Ok(packages) => packages,
        Err(e) => {
            return Err(
                output::unreadable_packages_message(loaded.packages_dir.as_str(), e.as_str()),
            );
        },
    };
    assert(packages.deep_view().len() == packages@.len());
    if packages.len() == 0 && !allow_no_packages {
        return Err(output::no_packages_message(loaded.packages_dir.as_str()));
    }
    let installed = match loaded.installed {
        Ok(db) => db,
        Err(e) => {
            return Err(output::unloadable_installed_message(&e));
        },
    };
    let lockfile = match loaded.lockfile {
        Ok(lockfile) => lockfile,
        Err(e) => {
            return Err(
                output::unloadable_lockfile_message(loaded.lockfile_path.as_str(), &e),
            );
        },
    };
    Ok(
        Workspace {
            available: AvailablePackages::from_packages(packages),
            installed,
            lockfile,
            mode: LockfileMode::from(global.lockfile_mode),
            system: loaded.system,
        },
    )
}

/// What is to be done next for a command.
#[derive(Debug)]
pub enum NextStep {
    /// Print and exit with the code.
    Exit(Output),
    /// Emit the failure and exit with [`EXIT_RESOLVER`].
    Fail(ResolverFailure),
    /// Print, and go on with the next name.
    Show { stdout: String, stderr: String },
    /// Print, and execute the plan.
    Execute { stderr: String, plan: Plan },
}

/// What a [`NextStep`] holds.
pub enum NextStepView {
    Exit(OutputView),
    Fail(ResolverFailureView),
    Show { stdout: Text, stderr: Text },
    Execute { stderr: Text, plan: PlanView },
}

impl DeepView for NextStep {
    type V = NextStepView;

    open spec fn deep_view(&self) -> NextStepView {
        match self {
            NextStep::Exit(o) => NextStepView::Exit(o@),
            NextStep::Fail(f) => NextStepView::Fail(f@),
            NextStep::Show { stdout, stderr } => NextStepView::Show {
                stdout: stdout@,
                stderr: stderr@,
            },
            NextStep::Execute { stderr, plan } => NextStepView::Execute {
                stderr: stderr@,
                plan: plan@,
            },
        }
    }
}

impl View for NextStep {
    type V = NextStepView;

    open spec fn view(&self) -> NextStepView {
        self.deep_view()
    }
}

/// The lockfile as the resolver takes it.
pub open spec fn lockfile_input(ws: WorkspaceView) -> LockfileInputView {
    match ws.lockfile {
        Some(packages) => Some((packages, ws.mode)),
        None => None,
    }
}

/// The plan for a request in the workspace.
pub open spec fn plan_in(ws: WorkspaceView, request: RequestView) -> Result<
    PlanView,
    ResolverFailureView,
> {
    request::plan_for_request(
        request,
        ws.available,
        ws.installed,
        lockfile_input(ws),
        Some(ws.system),
    )
}

/// The plan for a request in the workspace.
fn make_plan(ws: &Workspace, request: Request) -> (r: Result<Plan, ResolverFailure>)
    ensures
        views::result_view(r) == plan_in(ws@, request.deep_view()),
{
    let lockfile: LockfileInput = match &ws.lockfile {
        Some(lockfile) => Some((lockfile, ws.mode)),
        None => None,
    };
    request::resolve(request, &ws.available, &ws.installed, lockfile, Some(&ws.system))
}

/// Where a name is no package name, the command exits.
pub open spec fn name_step(name: Text, use_color: bool) -> NextStepView {
    NextStepView::Exit(output::failed(output::invalid_name(name), use_color, EXIT_OTHER))
}

/// What is done with a plan that installs or upgrades: it is shown in a dry run, executed
/// otherwise, and `nothing` is said where it has no steps.
pub open spec fn plan_step(
    dry_run: bool,
    format: OutputFormat,
    warnings: Text,
    nothing: Text,
    plan: PlanView,
) -> NextStepView {
    if dry_run {
        NextStepView::Show { stdout: plan_output::plan_text(plan, format), stderr: warnings }
    } else if plan.steps.len() == 0 {
        NextStepView::Show { stdout: nothing, stderr: warnings }
    } else {
        NextStepView::Execute { stderr: warnings, plan }
    }
}

/// What is done for a request to install or upgrade: a failure, or a plan with its warnings.
pub open spec fn request_step(
    ws: WorkspaceView,
    request: RequestView,
    dry_run: bool,
    format: OutputFormat,
    nothing: Text,
) -> NextStepView {
    match plan_in(ws, request) {
        Err(f) => NextStepView::Fail(f),
        Ok(plan) => plan_step(
            dry_run,
            format,
            plan_output::shadowing_warnings(plan.steps, ws.system),
            nothing,
            plan,
        ),
    }
}

fn take_request(global: &GlobalOpts, ws: &Workspace, request: Request, nothing: &str) -> (r:
    NextStep)
    ensures
        r@ == request_step(
            ws@,
            request.deep_view(),
            global.dry_run,
            args::format_of(global.output),
            nothing@,
        ),
{
    let plan = match make_plan(ws, request) {
        Ok(plan) => plan,
        Err(f) => {
            return NextStep::Fail(f);
        },
    };
    let warnings = plan_output::emit_shadowing_warnings(&plan, &ws.system);
    assert(plan.steps.deep_view().len() == plan.steps@.len());
    if global.dry_run {
        let stdout = plan_output::print_plan(&plan, OutputFormat::from(global.output));
        NextStep::Show { stdout, stderr: warnings }
    } else if plan.steps.len() == 0 {
        NextStep::Show { stdout: nothing.to_owned(), stderr: warnings }
    } else {
        NextStep::Execute { stderr: warnings, plan }
    }
}

/// What is done to install a package: nothing is said of a plan without steps.
pub open spec fn install_step(
    ws: WorkspaceView,
    name: Text,
    dry_run: bool,
    format: OutputFormat,
    use_color: bool,
) -> NextStepView {
    if package_name::valid_name(name) {
        request_step(ws, RequestView::Install { name }, dry_run, format, ""@)
    } else {
        name_step(name, use_color)
    }
}

/// Resolves the installation of one package: what is to be done next.
pub fn run_install(global: &GlobalOpts, use_color: bool, ws: &Workspace, name: &str) -> (r:
    NextStep)
    ensures
        r@ == install_step(
            ws@,
            name@,
            global.dry_run,
            args::format_of(global.output),
            use_color,
        ),
{
    match PackageName::new(name) {
        Ok(name) => take_request(global, ws, Request::Install { name }, ""),
        Err(_) => NextStep::Exit(
            output::fail(output::invalid_name_message(name).as_str(), use_color, EXIT_OTHER),
        ),
    }
}

/// What is done to upgrade a package, or all installed packages.
pub open spec fn upgrade_step(
    ws: WorkspaceView,
    name: Option<Text>,
    dry_run: bool,
    format: OutputFormat,
    use_color: bool,
) -> NextStepView {
    match name {
        None => request_step(
            ws,
            RequestView::UpgradeAll,
            dry_run,
            format,
            "Nothing to upgrade.\n"@,
        ),
        Some(name) => if package_name::valid_name(name) {
            request_step(
                ws,
                RequestView::Upgrade { name },
                dry_run,
                format,
                "Nothing to upgrade.\n"@,
            )
        } else {
            name_step(name, use_color)
        },
    }
}

/// Resolves the upgrade for one name or upgrade-all: what is to be done next.
pub fn run_upgrade(
    global: &GlobalOpts,
    use_color: bool,
    ws: &Workspace,
    name: Option<&str>,
) -> (r: NextStep)
    ensures
        r@ == upgrade_step(
            ws@,
            name.deep_view(),
            global.dry_run,
            args::format_of(global.output),
            use_color,
        ),
{
    match name {
        None => take_request(global, ws, Request::UpgradeAll, "Nothing to upgrade.\n"),
        Some(name) => match PackageName::new(name) {
            Ok(name) => take_request(
                global,
                ws,
                Request::Upgrade { name },
                "Nothing to upgrade.\n",
            ),
            Err(_) => NextStep::Exit(
                output::fail(output::invalid_name_message(name).as_str(), use_color, EXIT_OTHER),
            ),
        },
    }
}

/// What is done to remove a package: a removal gives no warnings.
pub open spec fn remove_step(
    ws: WorkspaceView,
    name: Text,
    force: bool,
    dry_run: bool,
    format: OutputFormat,
    use_color: bool,
) -> NextStepView {
    if package_name::valid_name(name) {
        match request::removal(name, force, ws.available, ws.installed) {
            Err(f) => NextStepView::Fail(f),
            Ok(plan) => if dry_run {
                NextStepView::Show {
                    stdout: plan_output::plan_text(plan, format),
                    stderr: Seq::empty(),
                }
            } else {
                NextStepView::Execute { stderr: Seq::empty(), plan }
            },
        }
    } else {
        name_step(name, use_color)
    }
}

/// Resolves the removal of one package: what is to be done next.
pub fn run_remove(
    global: &GlobalOpts,
    use_color: bool,
    ws: &Workspace,
    name: &str,
    force: bool,
) -> (r: NextStep)
    ensures
        r@ == remove_step(
            ws@,
            name@,
            force,
            global.dry_run,
            args::format_of(global.output),
            use_color,
        ),
{
    let stderr = String::new();
    assert(stderr@ =~= Seq::empty());
    match PackageName::new(name) {
        Ok(name) => match request::resolve_remove(name, force, &ws.available, &ws.installed) {
            Err(f) => NextStep::Fail(f),
            Ok(plan) => {
                if global.dry_run {
                    let stdout = plan_output::print_plan(
                        &plan,
                        OutputFormat::from(global.output),
                    );
                    NextStep::Show { stdout, stderr }
                } else {
                    NextStep::Execute { stderr, plan }
                }
            },
        },
        Err(_) => NextStep::Exit(
            output::fail(output::invalid_name_message(name).as_str(), use_color, EXIT_OTHER),
        ),
    }
}

/// What `sic resolve-only` prints: the plan to install the package, or to upgrade all.
pub open spec fn resolve_only_step(
    ws: WorkspaceView,
    name: Option<Text>,
    format: OutputFormat,
    use_color: bool,
) -> NextStepView {
    if name matches Some(n) && !package_name::valid_name(n) {
        name_step(name->0, use_color)
    } else {
        let request = match name {
            Some(name) => RequestView::Install { name },
            None => RequestView::UpgradeAll,
        };
        match plan_in(ws, request) {
            Err(f) => NextStepView::Fail(f),
            Ok(plan) => NextStepView::Exit(
                output::succeeded(plan_output::plan_text(plan, format)),
            ),
        }
    }
}

/// Resolve only; print plan and exit.
pub fn run_resolve_only(
    global: &GlobalOpts,
    use_color: bool,
    ws: &Workspace,
    name: Option<&str>,
) -> (r: NextStep)
    ensures
        r@ == resolve_only_step(
            ws@,
            name.deep_view(),
            args::format_of(global.output),
            use_color,
        ),
{
    let request = match name {
        None => Request::UpgradeAll,
        Some(name) => match PackageName::new(name) {
            Ok(name) => Request::Install { name },
            Err(_) => {
                return NextStep::Exit(
                    output::fail(
                        output::invalid_name_message(name).as_str(),
                        use_color,
                        EXIT_OTHER,
                    ),
                );
            },
        },
    };
    match make_plan(ws, request) {
        Err(f) => NextStep::Fail(f),
        Ok(plan) => NextStep::Exit(
            output::succeed(plan_output::print_plan(&plan, OutputFormat::from(global.output))),
        ),
    }
}

/// What a command did to a package.
#[derive(Clone, Copy, Debug, Eq, PartialEq, Structural)]
pub enum Deed {
    Installed,
    Upgraded,
    Removed,
}

/// Whether the deed is told of a step.
pub open spec fn told(deed: Deed, action: PlanAction) -> bool {
    match deed {
        Deed::Installed => action != PlanAction::Remove,
        Deed::Upgraded => action == PlanAction::Upgrade,
        Deed::Removed => action == PlanAction::Remove,
    }
}

/// The deed in words.
pub open spec fn deed_text(deed: Deed, step: PlanStepView) -> Text {
    match deed {
        Deed::Installed => "Installed "@ + step.name + " "@ + step.version,
        Deed::Upgraded => "Upgraded "@ + step.name + " to "@ + step.version,
        Deed::Removed => "Removed "@ + step.name + " "@ + step.version,
    }
}

/// The lines that tell what was done.
pub open spec fn deed_lines(deed: Deed, steps: Seq<PlanStepView>, use_color: bool) -> Text
    decreases steps.len(),
{
    if steps.len() == 0 {
        Seq::empty()
    } else {
        let front = deed_lines(deed, steps.drop_last(), use_color);
        if told(deed, steps.last().action) {
            front + output::success_line(deed_text(deed, steps.last()), use_color)
        } else {
            front
        }
    }
}

/// What a command prints after the plan was executed, and the code: the failure, or what was done.
pub open spec fn executed_output(
    deed: Deed,
    steps: Seq<PlanStepView>,
    failure: Option<Text>,
    color_stdout: bool,
    color_stderr: bool,
) -> OutputView {
    match failure {
        Some(e) => output::failed("sic: "@ + e, color_stderr, EXIT_EXEC),
        None => output::succeeded(deed_lines(deed, steps, color_stdout)),
    }
}

/// What a command prints after the plan was executed, or failed to be, and the code.
pub fn report_executed(
    deed: Deed,
    plan: &Plan,
    failure: Option<&str>,
    color_stdout: bool,
    color_stderr: bool,
) -> (r: Output)
    ensures
        r@ == executed_output(
            deed,
            plan@.steps,
            failure.deep_view(),
            color_stdout,
            color_stderr,
        ),
{
    if let Some(e) = failure {
        return output::fail("sic: ".to_owned().concat(e).as_str(), color_stderr, EXIT_EXEC);
    }
    let ghost all = plan@.steps;
    let mut out = String::new();
    let mut i: usize = 0;
    assert(out@ =~= Seq::empty());
    while i < plan.steps.len()
        invariant
            i <= plan.steps@.len(),
            all == plan.steps.deep_view(),
            out@ == deed_lines(deed, all.take(i as int), color_stdout),
        decreases plan.steps@.len() - i,
    {
        let step = &plan.steps[i];
        assert(all[i as int] == step@);
        assert(all.take(i + 1).drop_last() == all.take(i as int));
        let tell = match deed {
            Deed::Installed => step.action != PlanAction::Remove,
            Deed::Upgraded => step.action == PlanAction::Upgrade,
            Deed::Removed => step.action == PlanAction::Remove,
        };
        if tell {
            let message = match deed {
                Deed::Installed => "Installed ".to_owned().concat(step.name.as_str()).concat(
                    " ",
                ).concat(step.version.as_str()),
                Deed::Upgraded => "Upgraded ".to_owned().concat(step.name.as_str()).concat(
                    " to ",
                ).concat(step.version.as_str()),
                Deed::Removed => "Removed ".to_owned().concat(step.name.as_str()).concat(
                    " ",
                ).concat(step.version.as_str()),
            };
            out.append(term::write_success(color_stdout, message.as_str()).as_str());
        }
        i += 1;
    }
    assert(all.take(all.len() as int) == all);
    output::succeed(out)
}

/// What a command prints when the resolver has failed, and the code.
pub open spec fn failure_output(emitted: Result<Text, FailureSerializeErrorView>) -> OutputView {
    OutputView {
        stdout: Seq::empty(),
        stderr: match emitted {
            Ok(s) => s,
            Err(_) => Seq::empty(),
        },
        code: EXIT_RESOLVER,
    }
}

/// What a command prints when the resolver has failed, and the code, given the failure as it is
/// emitted.
pub fn report_failure(emitted: Result<String, FailureSerializeError>) -> (r: Output)
    ensures
        r@ == failure_output(views::result_view(emitted)),
{
    let stderr = match emitted {
        Ok(s) => s,
        Err(_) => {
            let none = String::new();
            assert(none@ =~= Seq::empty());
            none
        },
    };
    let r = Output { stdout: String::new(), stderr, code: EXIT_RESOLVER };
    assert(r.stdout@ =~= Seq::empty());
    r
}

/// What a command does with each of its names.
#[derive(Clone, Copy, Debug, Eq, PartialEq, Structural)]
pub enum Job {
    Install,
    Remove { force: bool },
}

/// A command on one or more names, which are taken in turn.
#[derive(Debug)]
pub struct Batch {
    pub ws: Workspace,
    pub job: Job,
    pub names: Vec<String>,
    /// How many of the names are done.
    pub done: usize,
}

/// What a [`Batch`] holds.
pub struct BatchView {
    pub ws: WorkspaceView,
    pub job: Job,
    pub names: Seq<Text>,
    pub done: nat,
}

impl DeepView for Batch {
    type V = BatchView;

    open spec fn deep_view(&self) -> BatchView {
        BatchView {
            ws: self.ws@,
            job: self.job,
            names: self.names.deep_view(),
            done: self.done as nat,
        }
    }
}

impl View for Batch {
    type V = BatchView;

    open spec fn view(&self) -> BatchView {
        self.deep_view()
    }
}

/// What is to be done next: the job for the next name, or to exit with success when all are done.
pub open spec fn batch_step(
    b: BatchView,
    dry_run: bool,
    format: OutputFormat,
    use_color: bool,
) -> NextStepView {
    if b.done >= b.names.len() {
        NextStepView::Exit(output::succeeded(Seq::empty()))
    } else {
        let name = b.names[b.done as int];
        match b.job {
            Job::Install => install_step(b.ws, name, dry_run, format, use_color),
            Job::Remove { force } => remove_step(b.ws, name, force, dry_run, format, use_color),
        }
    }
}

/// The batch after the next name: with the installed packages as they were loaded again, or as they
/// were where that was not possible or nothing was executed.
pub open spec fn batch_after(
    b: BatchView,
    reloaded: Option<Result<Seq<InstalledEntryView>, InstalledLoadErrorView>>,
) -> BatchView {
    let done = b.done + 1;
    match reloaded {
        Some(Ok(installed)) => BatchView { ws: WorkspaceView { installed, ..b.ws }, done, ..b },
        _ => BatchView { done, ..b },
    }
}

impl Batch {
    /// A command that has not begun.
    pub fn new(ws: Workspace, job: Job, names: Vec<String>) -> (r: Self)
        ensures
            r@ == (BatchView { ws: ws@, job, names: names.deep_view(), done: 0 }),
    {
        Batch { ws, job, names, done: 0 }
    }

    /// What is to be done next.
    pub fn next(&self, global: &GlobalOpts, use_color: bool) -> (r: NextStep)
        ensures
            r@ == batch_step(
                self@,
                global.dry_run,
                args::format_of(global.output),
                use_color,
            ),
    {
        assert(self.names.deep_view().len() == self.names@.len());
        if self.done >= self.names.len() {
            let stdout = String::new();
            assert(stdout@ =~= Seq::empty());
            return NextStep::Exit(output::succeed(stdout));
        }
        assert(self@.names[self.done as int] == self.names@[self.done as int]@);
        let name = self.names[self.done].as_str();
        match self.job {
            Job::Install => run_install(global, use_color, &self.ws, name),
            Job::Remove { force } => run_remove(global, use_color, &self.ws, name, force),
        }
    }

    /// Goes on after the next name. Where a plan was executed, the installed packages were loaded
    /// again, or could not be.
    pub fn advance(&mut self, reloaded: Option<Result<InstalledDb, InstalledLoadError>>)
        requires
            old(self).done < old(self).names@.len(),
        ensures
            final(self)@ == batch_after(
                old(self)@,
                match reloaded {
                    Some(r) => Some(views::result_view(r)),
                    None => None,
                },
            ),
    {
        let total: usize = self.names.len();
        assert(self.done < total);
        self.done = self.done + 1;
        if let Some(Ok(installed)) = reloaded {
            self.ws.installed = installed;
        }
    }
}

} // verus!
