//! The reconciliation layer: merges job definitions with the live state the
//! service manager reports, classifies where a definition lives, and guards
//! the mutating operations.
use crate::error::AppError;
use crate::launchctl::{LoadedService, ServiceRow, service_views};
use crate::plist_util::{
    PV, config_of, decoded, env_keys_unique, file_stem, is_plist_error, parse_plist,
    raw_xml_fits,
};
use crate::text::{chars_of, contains, contains_chars, starts_with, starts_with_chars};
use crate::types::{JobListEntry, JobSource, JobStatus, LaunchdJob};
use vstd::prelude::*;
use vstd::string::*;

verus! {

/// The message with which the policy refuses to act on a job outside the
/// user's own agents directory.
pub const NOT_USER_AGENT: &'static str = "Cannot start/stop system agents or daemons. Only user agents (~/Library/LaunchAgents) can be managed.";

/// The agents directory under a home directory, as `Path::join` forms it.
pub open spec fn agents_dir_of(home: Seq<char>) -> Seq<char> {
    if home.len() == 0 {
        "Library/LaunchAgents"@
    } else if home.last() == '/' {
        home + "Library/LaunchAgents"@
    } else {
        home + "/"@ + "Library/LaunchAgents"@
    }
}

/// The user's agents directory, `Library/LaunchAgents` under `home`.
pub fn get_user_agents_dir(home: &str) -> (r: String)
    ensures
        r@ == agents_dir_of(home@),
{
    let h = chars_of(home);
    let mut r = String::from_str(home);
    if h.len() > 0 && h[h.len() - 1] != '/' {
        r.append("/");
    }
    r.append("Library/LaunchAgents");
    assert(h@.len() == 0 ==> r@ =~= "Library/LaunchAgents"@);
    r
}

/// Relies on `dirs::home_dir`: the current user's home directory, when it
/// is known and is valid text. It depends on the environment.
#[verifier::external_body]
fn home_dir() -> (r: Option<String>) {
    dirs::home_dir().and_then(|p| p.to_str().map(String::from))
}

/// Accepts exactly the paths that start with `user_agents_dir`.
pub fn check_user_agent(plist_path: &str, user_agents_dir: &str) -> (r: Result<(), AppError>)
    ensures
        r is Ok <==> starts_with(plist_path@, user_agents_dir@),
        r is Err ==> r->Err_0 is Launchctl && r->Err_0->Launchctl_0@ == NOT_USER_AGENT@,
{
    if starts_with_chars(&chars_of(plist_path), &chars_of(user_agents_dir)) {
        Ok(())
    } else {
        Err(AppError::Launchctl(String::from_str(NOT_USER_AGENT)))
    }
}

/// Refuses to act on a job outside the current user's agents directory
/// (with no known home directory, `Library/LaunchAgents` itself).
pub fn ensure_user_agent(plist_path: &str) -> (r: Result<(), AppError>)
    ensures
        r is Err ==> r->Err_0 is Launchctl && r->Err_0->Launchctl_0@ == NOT_USER_AGENT@,
        exists|home: Seq<char>|
            (r is Ok <==> starts_with(plist_path@, #[trigger] agents_dir_of(home))),
{
    let home = match home_dir() {
        Some(h) => h,
        None => String::new(),
    };
    let dir = get_user_agents_dir(home.as_str());
    let r = check_user_agent(plist_path, dir.as_str());
    assert(r is Ok <==> starts_with(plist_path@, agents_dir_of(home@)));
    r
}

/// The first loaded service with this label.
pub open spec fn find_service(s: Seq<ServiceRow>, label: Seq<char>) -> Option<ServiceRow>
    decreases s.len(),
{
    if s.len() == 0 {
        None
    } else if s[0].label == label {
        Some(s[0])
    } else {
        find_service(s.drop_first(), label)
    }
}

/// Status, pid and last exit code of the job `label`: running when the
/// manager reports a pid, stopped otherwise and when it is not loaded.
pub open spec fn state_of(s: Seq<ServiceRow>, label: Seq<char>) -> (JobStatus, Option<u32>, Option<i32>) {
    match find_service(s, label) {
        Some(r) => (
            if r.pid is Some {
                JobStatus::Running
            } else {
                JobStatus::Stopped
            },
            r.pid,
            r.last_exit_code,
        ),
        None => (JobStatus::Stopped, None, None),
    }
}

pub fn service_state(loaded: &Vec<LoadedService>, label: &str) -> (r: (
    JobStatus,
    Option<u32>,
    Option<i32>,
))
    ensures
        r == state_of(service_views(loaded@), label@),
{
    let ghost sv = service_views(loaded@);
    let l = String::from_str(label);
    let mut i: usize = 0;
    assert(sv.subrange(0, loaded.len() as int) =~= sv);
    while i < loaded.len()
        invariant
            i <= loaded.len(),
            l@ == label@,
            sv == service_views(loaded@),
            find_service(sv, label@) == find_service(sv.subrange(i as int, sv.len() as int), label@),
        decreases loaded.len() - i,
    {
        let ghost rest = sv.subrange(i as int, sv.len() as int);
        assert(rest.drop_first() =~= sv.subrange(i + 1, sv.len() as int));
        assert(rest[0] == loaded@[i as int]@);
        if loaded[i].label == l {
            let status = if loaded[i].pid.is_some() {
                JobStatus::Running
            } else {
                JobStatus::Stopped
            };
            return (status, loaded[i].pid, loaded[i].last_exit_code);
        }
        i = i + 1;
    }
    (JobStatus::Stopped, None, None)
}

/// Whether a kickstart of `label` must first bootstrap the job: it is not
/// among the loaded services.
pub fn needs_bootstrap(loaded: &Vec<LoadedService>, label: &str) -> (r: bool)
    ensures
        r == (find_service(service_views(loaded@), label@) is None),
{
    let ghost sv = service_views(loaded@);
    let l = String::from_str(label);
    let mut i: usize = 0;
    assert(sv.subrange(0, loaded.len() as int) =~= sv);
    while i < loaded.len()
        invariant
            i <= loaded.len(),
            l@ == label@,
            sv == service_views(loaded@),
            find_service(sv, label@) == find_service(sv.subrange(i as int, sv.len() as int), label@),
        decreases loaded.len() - i,
    {
        let ghost rest = sv.subrange(i as int, sv.len() as int);
        assert(rest.drop_first() =~= sv.subrange(i + 1, sv.len() as int));
        assert(rest[0] == loaded@[i as int]@);
        if loaded[i].label == l {
            return false;
        }
        i = i + 1;
    }
    true
}

/// Where a definition lives, from its path alone: the daemons root is
/// tested first, as it shares its prefix with the agents roots.
pub open spec fn source_of(path: Seq<char>) -> JobSource {
    if contains(path, "/Library/LaunchDaemons"@) {
        JobSource::SystemDaemon
    } else if starts_with(path, "/Library/LaunchAgents"@) {
        JobSource::SystemAgent
    } else {
        JobSource::UserAgent
    }
}

pub fn job_source_of(plist_path: &str) -> (r: JobSource)
    ensures
        r == source_of(plist_path@),
{
    let p = chars_of(plist_path);
    if contains_chars(&p, &chars_of("/Library/LaunchDaemons")) {
        JobSource::SystemDaemon
    } else if starts_with_chars(&p, &chars_of("/Library/LaunchAgents")) {
        JobSource::SystemAgent
    } else {
        JobSource::UserAgent
    }
}

/// The detail of the job defined at `plist_path`, whose content is `data`
/// (`None`: the file does not exist), merged with the loaded services.
pub fn get_job_detail(plist_path: String, data: Option<Vec<u8>>, loaded: &Vec<LoadedService>) -> (r:
    Result<LaunchdJob, AppError>)
    ensures
        data is None ==> r is Err && r->Err_0 is NotFound && r->Err_0->NotFound_0@ == plist_path@,
        data is Some ==> match decoded(data->Some_0@) {
            None => r is Err && exists|e: Seq<char>|
                is_plist_error(r->Err_0, plist_path@ + ": "@ + e),
            Some(PV::Dictionary(d)) => r is Ok && ({
                let job = r->Ok_0;
                let st = state_of(service_views(loaded@), job.plist.label@);
                &&& job.plist@ == config_of(d, file_stem(plist_path@), job.plist.raw_xml@)
                &&& raw_xml_fits(data->Some_0@, job.plist.raw_xml@)
                &&& env_keys_unique(job.plist@)
                &&& job.label@ == job.plist.label@
                &&& job.plist_path@ == plist_path@
                &&& job.source == source_of(plist_path@)
                &&& job.status == st.0 && job.pid == st.1 && job.last_exit_code == st.2
            }),
            Some(_) => r is Err && is_plist_error(r->Err_0, plist_path@ + ": not a dictionary"@),
        },
{
    let bytes = match data {
        Some(b) => b,
        None => return Err(AppError::NotFound(plist_path)),
    };
    let plist = match parse_plist(plist_path.as_str(), bytes.as_slice()) {
        Ok(c) => c,
        Err(e) => return Err(e),
    };
    let (status, pid, last_exit_code) = service_state(loaded, plist.label.as_str());
    let source = job_source_of(plist_path.as_str());
    Ok(
        LaunchdJob {
            label: plist.label.clone(),
            plist_path,
            source,
            status,
            pid,
            last_exit_code,
            plist,
        },
    )
}

/// Byte-wise (here: character-wise) lexicographic order of labels, as
/// `String`'s `Ord` has it.
pub open spec fn label_le(a: Seq<char>, b: Seq<char>) -> bool
    decreases a.len(),
{
    if a.len() == 0 {
        true
    } else if b.len() == 0 {
        false
    } else if (a[0] as u32) != (b[0] as u32) {
        (a[0] as u32) < (b[0] as u32)
    } else {
        label_le(a.drop_first(), b.drop_first())
    }
}

pub proof fn lemma_label_total(a: Seq<char>, b: Seq<char>)
    ensures
        label_le(a, b) || label_le(b, a),
    decreases a.len(),
{
    if a.len() > 0 && b.len() > 0 && (a[0] as u32) == (b[0] as u32) {
        lemma_label_total(a.drop_first(), b.drop_first());
    }
}

fn labels_in_order(a: &String, b: &String) -> (r: bool)
    ensures
        r == label_le(a@, b@),
{
    let x = chars_of(a.as_str());
    let y = chars_of(b.as_str());
    let mut k: usize = 0;
    assert(x@.subrange(0, x@.len() as int) =~= x@);
    assert(y@.subrange(0, y@.len() as int) =~= y@);
    while k < x.len() && k < y.len() && (x[k] as u32) == (y[k] as u32)
        invariant
            k <= x.len(),
            k <= y.len(),
            label_le(a@, b@) == label_le(
                x@.subrange(k as int, x@.len() as int),
                y@.subrange(k as int, y@.len() as int),
            ),
            x@ == a@,
            y@ == b@,
        decreases x.len() - k,
    {
        assert(x@.subrange(k as int, x@.len() as int).drop_first() =~= x@.subrange(
            k + 1,
            x@.len() as int,
        ));
        assert(y@.subrange(k as int, y@.len() as int).drop_first() =~= y@.subrange(
            k + 1,
            y@.len() as int,
        ));
        k = k + 1;
    }
    if k == x.len() {
        true
    } else if k == y.len() {
        false
    } else {
        (x[k] as u32) < (y[k] as u32)
    }
}

pub ghost struct EntryView {
    pub label: Seq<char>,
    pub pid: Option<u32>,
    pub last_exit_code: Option<i32>,
    pub plist_path: Seq<char>,
    pub source: JobSource,
    pub status: JobStatus,
}

impl View for JobListEntry {
    type V = EntryView;

    open spec fn view(&self) -> EntryView {
        EntryView {
            label: self.label@,
            pid: self.pid,
            last_exit_code: self.last_exit_code,
            plist_path: self.plist_path@,
            source: self.source,
            status: self.status,
        }
    }
}

pub open spec fn entry_views(v: Seq<JobListEntry>) -> Seq<EntryView> {
    v.map_values(|e: JobListEntry| e@)
}

/// The listing entry of one definition file, when it parses: its label,
/// merged with the loaded services.
pub open spec fn entry_of(path: Seq<char>, source: JobSource, data: Seq<u8>, loaded: Seq<ServiceRow>) -> Option<EntryView> {
    match decoded(data) {
        Some(PV::Dictionary(d)) => {
            let label = config_of(d, file_stem(path), Seq::empty()).label;
            let st = state_of(loaded, label);
            Some(
                EntryView {
                    label,
                    pid: st.1,
                    last_exit_code: st.2,
                    plist_path: path,
                    source,
                    status: st.0,
                },
            )
        },
        _ => None,
    }
}

/// The entries of the files that parse, in the order of the files.
pub open spec fn merged(files: Seq<(String, JobSource, Vec<u8>)>, loaded: Seq<ServiceRow>) -> Seq<EntryView>
    decreases files.len(),
{
    if files.len() == 0 {
        Seq::empty()
    } else {
        let p = merged(files.drop_last(), loaded);
        let f = files.last();
        match entry_of(f.0@, f.1, f.2@, loaded) {
            Some(e) => p.push(e),
            None => p,
        }
    }
}

pub open spec fn sorted_by_label(v: Seq<EntryView>) -> bool {
    forall|i: int| 0 <= i < v.len() - 1 ==> label_le(#[trigger] v[i].label, v[i + 1].label)
}

/// The job listing: each definition file that parses (path, source root and
/// content), merged with the loaded services, sorted by label; files that do
/// not parse are left out.
pub fn list_jobs(files: &Vec<(String, JobSource, Vec<u8>)>, loaded: &Vec<LoadedService>) -> (r: Vec<
    JobListEntry,
>)
    ensures
        sorted_by_label(entry_views(r@)),
        entry_views(r@).to_multiset() == merged(files@, service_views(loaded@)).to_multiset(),
{
    let ghost sv = service_views(loaded@);
    let mut out: Vec<JobListEntry> = Vec::new();
    let mut i: usize = 0;
    assert(files@.subrange(0, 0) =~= Seq::<(String, JobSource, Vec<u8>)>::empty());
    assert(entry_views(out@) =~= Seq::<EntryView>::empty());
    while i < files.len()
        invariant
            i <= files.len(),
            sv == service_views(loaded@),
            sorted_by_label(entry_views(out@)),
            entry_views(out@).to_multiset() == merged(files@.subrange(0, i as int), sv).to_multiset(),
        decreases files.len() - i,
    {
        let ghost sub = files@.subrange(0, i + 1);
        assert(sub.drop_last() =~= files@.subrange(0, i as int));
        assert(sub.last() == files@[i as int]);
        let path = &files[i].0;
        match parse_plist(path.as_str(), files[i].2.as_slice()) {
            Ok(config) => {
                let (status, pid, last_exit_code) = service_state(loaded, config.label.as_str());
                let entry = JobListEntry {
                    label: config.label,
                    pid,
                    last_exit_code,
                    plist_path: path.clone(),
                    source: files[i].1,
                    status,
                };
                let ghost ev = entry@;
                assert(entry_of(path@, files@[i as int].1, files@[i as int].2@, sv) == Some(ev));
                let mut j: usize = 0;
                while j < out.len() && labels_in_order(&out[j].label, &entry.label)
                    invariant
                        j <= out.len(),
                        ev == entry@,
                        forall|k: int| 0 <= k < j ==> label_le(#[trigger] out@[k].label@, ev.label),
                    decreases out.len() - j,
                {
                    j = j + 1;
                }
                let ghost before = entry_views(out@);
                proof {
                    if j < out.len() {
                        lemma_label_total(before[j as int].label, ev.label);
                    }
                }
                out.insert(j, entry);
                assert(entry_views(out@) =~= before.insert(j as int, ev));
                assert(merged(sub, sv) == merged(files@.subrange(0, i as int), sv).push(ev));
                proof {
                    vstd::seq_lib::to_multiset_insert(before, j as int, ev);
                    vstd::seq_lib::to_multiset_build(
                        merged(files@.subrange(0, i as int), sv),
                        ev,
                    );
                }
                assert(sorted_by_label(entry_views(out@))) by {
                    let nv = entry_views(out@);
                    assert forall|k: int| 0 <= k < nv.len() - 1 implies label_le(
                        #[trigger] nv[k].label,
                        nv[k + 1].label,
                    ) by {
                        if k < j - 1 {
                            assert(nv[k] == before[k] && nv[k + 1] == before[k + 1]);
                        } else if k == j - 1 {
                            assert(nv[k] == before[k] && nv[k + 1] == ev);
                        } else if k == j {
                            assert(nv[k] == ev && nv[k + 1] == before[k]);
                        } else {
                            assert(nv[k] == before[k - 1] && nv[k + 1] == before[k]);
                        }
                    }
                }
            },
            Err(_) => {
                assert(merged(sub, sv) == merged(files@.subrange(0, i as int), sv));
            },
        }
        i = i + 1;
    }
    assert(files@.subrange(0, files.len() as int) =~= files@);
    out
}

/// A job-control intent of the user.
#[derive(Debug, Clone, Copy, PartialEq, Eq, Structural)]
pub enum ControlOp {
    Start,
    Stop,
    Restart,
    Kickstart,
    Delete,
}

/// One invocation of the service manager.
#[derive(Debug, Clone, Copy, PartialEq, Eq, Structural)]
pub enum ControlCall {
    Bootout,
    Bootstrap,
    Kickstart,
    Disable,
}

/// A call of a plan; the failure of a best-effort call is discarded, any
/// other failure ends the plan with that error.
#[derive(Debug, Clone, Copy, PartialEq, Eq, Structural)]
pub struct ControlStep {
    pub call: ControlCall,
    pub best_effort: bool,
}

/// The calls that carry out an intent. Start and restart unload first, best
/// effort, to clear stale state, then load; stop unloads; kickstart loads
/// first when the job is not loaded; delete unloads and disables, both best
/// effort, before the file is removed.
pub open spec fn plan_of(op: ControlOp, loaded: bool) -> Seq<ControlStep> {
    match op {
        ControlOp::Start | ControlOp::Restart => seq![
            ControlStep { call: ControlCall::Bootout, best_effort: true },
            ControlStep { call: ControlCall::Bootstrap, best_effort: false },
        ],
        ControlOp::Stop => seq![ControlStep { call: ControlCall::Bootout, best_effort: false }],
        ControlOp::Kickstart => if loaded {
            seq![ControlStep { call: ControlCall::Kickstart, best_effort: false }]
        } else {
            seq![
                ControlStep { call: ControlCall::Bootstrap, best_effort: false },
                ControlStep { call: ControlCall::Kickstart, best_effort: false },
            ]
        },
        ControlOp::Delete => seq![
            ControlStep { call: ControlCall::Bootout, best_effort: true },
            ControlStep { call: ControlCall::Disable, best_effort: true },
        ],
    }
}

/// The plan of `op`; `loaded` says whether the job is among the loaded
/// services.
pub fn control_plan(op: ControlOp, loaded: bool) -> (r: Vec<ControlStep>)
    ensures
        r@ == plan_of(op, loaded),
{
    let mut r: Vec<ControlStep> = Vec::new();
    match op {
        ControlOp::Start | ControlOp::Restart => {
            r.push(ControlStep { call: ControlCall::Bootout, best_effort: true });
            r.push(ControlStep { call: ControlCall::Bootstrap, best_effort: false });
        },
        ControlOp::Stop => {
            r.push(ControlStep { call: ControlCall::Bootout, best_effort: false });
        },
        ControlOp::Kickstart => {
            if !loaded {
                r.push(ControlStep { call: ControlCall::Bootstrap, best_effort: false });
            }
            r.push(ControlStep { call: ControlCall::Kickstart, best_effort: false });
        },
        ControlOp::Delete => {
            r.push(ControlStep { call: ControlCall::Bootout, best_effort: true });
            r.push(ControlStep { call: ControlCall::Disable, best_effort: true });
        },
    }
    assert(r@ =~= plan_of(op, loaded));
    r
}

/// What follows a call of a plan: `None` to go on with the next call, or the
/// result of the whole plan.
pub open spec fn after_step(step: ControlStep, result: Result<(), AppError>, last: bool) -> Option<
    Result<(), AppError>,
> {
    match result {
        Err(e) => if step.best_effort {
            if last {
                Some(Ok(()))
            } else {
                None
            }
        } else {
            Some(Err(e))
        },
        Ok(_) => if last {
            Some(Ok(()))
        } else {
            None
        },
    }
}

pub fn next_after(step: ControlStep, result: Result<(), AppError>, last: bool) -> (r: Option<
    Result<(), AppError>,
>)
    ensures
        r == after_step(step, result, last),
{
    match result {
        Err(e) => if step.best_effort {
            if last {
                Some(Ok(()))
            } else {
                None
            }
        } else {
            Some(Err(e))
        },
        Ok(_) => if last {
            Some(Ok(()))
        } else {
            None
        },
    }
}

} // verus!
