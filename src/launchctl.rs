//! The service-manager adapter: the tab-separated listing, the session and
//! service targets, and the classification of each invocation's outcome into
//! success, benign no-op or failure.
use crate::error::AppError;
use crate::text::{
    all_digits, is_digit, chars_of, contains, contains_chars, decimal, decimal_chars, lemma_split_nonempty, parse_i32,
    parse_i32_chars, parse_u32, parse_u32_chars, split_chars, split_on, string_of, trim,
    trim_chars, views,
};
use vstd::prelude::*;
use vstd::string::*;

verus! {

/// A service that the manager reports as loaded.
#[derive(Debug, Clone)]
pub struct LoadedService {
    pub label: String,
    pub pid: Option<u32>,
    pub last_exit_code: Option<i32>,
}

pub ghost struct ServiceRow {
    pub label: Seq<char>,
    pub pid: Option<u32>,
    pub last_exit_code: Option<i32>,
}

impl View for LoadedService {
    type V = ServiceRow;

    open spec fn view(&self) -> ServiceRow {
        ServiceRow { label: self.label@, pid: self.pid, last_exit_code: self.last_exit_code }
    }
}

pub open spec fn service_views(v: Seq<LoadedService>) -> Seq<ServiceRow> {
    v.map_values(|s: LoadedService| s@)
}

/// One data line of the listing: at least three tab-separated fields (pid,
/// last exit status, label), each trimmed; a pid or status that is not a
/// number is absent; a line with fewer fields or an empty label gives nothing.
pub open spec fn row_of(line: Seq<char>) -> Option<ServiceRow> {
    let parts = split_on(line, '\t');
    if parts.len() < 3 {
        None
    } else {
        let label = trim(parts[2]);
        if label.len() == 0 {
            None
        } else {
            Some(
                ServiceRow {
                    label,
                    pid: parse_u32(trim(parts[0])),
                    last_exit_code: parse_i32(trim(parts[1])),
                },
            )
        }
    }
}

pub open spec fn rows_of(lines: Seq<Seq<char>>) -> Seq<ServiceRow>
    decreases lines.len(),
{
    if lines.len() == 0 {
        Seq::empty()
    } else {
        let prev = rows_of(lines.drop_last());
        match row_of(lines.last()) {
            Some(r) => prev.push(r),
            None => prev,
        }
    }
}

/// The services that a listing describes: the rows of every line after the
/// header, in order. (A carriage return before a line feed ends up at the
/// end of the last field and is trimmed with it.)
pub open spec fn listing(output: Seq<char>) -> Seq<ServiceRow> {
    rows_of(split_on(output, '\n').drop_first())
}

fn parse_row(line: &Vec<char>) -> (r: Option<LoadedService>)
    ensures
        match r {
            Some(s) => row_of(line@) == Some(s@),
            None => row_of(line@) is None,
        },
{
    let parts = split_chars(line, '\t');
    if parts.len() < 3 {
        return None;
    }
    let label = trim_chars(&parts[2]);
    if label.len() == 0 {
        return None;
    }
    let pid = parse_u32_chars(&trim_chars(&parts[0]));
    let last_exit_code = parse_i32_chars(&trim_chars(&parts[1]));
    Some(LoadedService { label: string_of(label.as_slice()), pid, last_exit_code })
}

/// Parses the manager's listing output: the header line is skipped, and each
/// later line that holds a service gives one entry, in order.
pub fn parse_list_output(output: &str) -> (r: Vec<LoadedService>)
    ensures
        service_views(r@) == listing(output@),
{
    let chars = chars_of(output);
    let lines = split_chars(&chars, '\n');
    proof {
        lemma_split_nonempty(chars@, '\n');
    }
    let ghost lv = views(lines@);
    let mut services: Vec<LoadedService> = Vec::new();
    let mut k: usize = 1;
    assert(lv.subrange(1, 1) =~= Seq::<Seq<char>>::empty());
    assert(service_views(services@) =~= Seq::<ServiceRow>::empty());
    while k < lines.len()
        invariant
            1 <= k <= lines.len(),
            lv == views(lines@),
            service_views(services@) == rows_of(lv.subrange(1, k as int)),
        decreases lines.len() - k,
    {
        let row = parse_row(&lines[k]);
        assert(lv.subrange(1, k + 1).drop_last() =~= lv.subrange(1, k as int));
        assert(lv.subrange(1, k + 1).last() == lines@[k as int]@);
        let ghost before = services@;
        match row {
            Some(s) => {
                services.push(s);
                assert(service_views(services@) =~= service_views(before).push(s@));
            },
            None => {},
        }
        k = k + 1;
    }
    assert(lv.subrange(1, lv.len() as int) =~= lv.drop_first());
    services
}

/// The user id that `id -u` prints: its output, trimmed, as a number.
pub fn parse_uid(output: &str) -> (r: Option<u32>)
    ensures
        r == parse_u32(trim(output@)),
{
    parse_u32_chars(&trim_chars(&chars_of(output)))
}

/// The session domain of the user `uid`: `gui/<uid>`.
pub fn gui_target(uid: u32) -> (r: String)
    ensures
        r@ == "gui/"@ + decimal(uid as nat),
{
    let mut r = String::from_str("gui/");
    let digits = string_of(decimal_chars(uid).as_slice());
    r.append(digits.as_str());
    r
}

/// The service `label` in the session domain of the user `uid`:
/// `gui/<uid>/<label>`.
pub fn service_target(uid: u32, label: &str) -> (r: String)
    ensures
        r@ == "gui/"@ + decimal(uid as nat) + "/"@ + label@,
{
    let mut r = gui_target(uid);
    r.append("/");
    r.append(label);
    r
}

/// How an invocation of the service manager ended.
#[derive(Debug, Clone, Copy, PartialEq, Eq, Structural)]
pub enum Outcome {
    /// The command exited successfully.
    Success,
    /// The command failed, but only because the target already was in the
    /// requested state.
    BenignNoOp,
    /// The command failed.
    Fatal,
}

pub open spec fn pattern_views(v: Seq<&str>) -> Seq<Seq<char>> {
    v.map_values(|p: &str| p@)
}

/// Some pattern of `benign` occurs in `stderr`.
pub open spec fn any_pattern(stderr: Seq<char>, benign: Seq<Seq<char>>) -> bool {
    exists|i: int| 0 <= i < benign.len() && contains(stderr, #[trigger] benign[i])
}

pub open spec fn classify_spec(succeeded: bool, stderr: Seq<char>, benign: Seq<Seq<char>>) -> Outcome {
    if succeeded {
        Outcome::Success
    } else if any_pattern(stderr, benign) {
        Outcome::BenignNoOp
    } else {
        Outcome::Fatal
    }
}

/// Classifies an invocation by its exit status and diagnostic text: a failure
/// whose text holds one of the `benign` patterns is a no-op.
pub fn classify(succeeded: bool, stderr: &str, benign: &[&str]) -> (r: Outcome)
    ensures
        r == classify_spec(succeeded, stderr@, pattern_views(benign@)),
{
    let ghost pats = pattern_views(benign@);
    if succeeded {
        return Outcome::Success;
    }
    let text = chars_of(stderr);
    let mut i: usize = 0;
    while i < benign.len()
        invariant
            i <= benign.len(),
            !succeeded,
            text@ == stderr@,
            pats == pattern_views(benign@),
            forall|j: int| 0 <= j < i ==> !contains(stderr@, #[trigger] pats[j]),
        decreases benign.len() - i,
    {
        let pat = chars_of(benign[i]);
        if contains_chars(&text, &pat) {
            assert(pats[i as int] == pat@);
            assert(0 <= i < pats.len() && contains(stderr@, pats[i as int]));
            assert(any_pattern(stderr@, pats));
            return Outcome::BenignNoOp;
        }
        i = i + 1;
    }
    Outcome::Fatal
}

/// The text of a bootstrap of a job that is already loaded.
pub const ALREADY_LOADED: &'static str = "already loaded";

/// Diagnostic texts with which a bootout of a job that is not loaded fails.
pub const NOT_LOADED: &'static str = "not loaded";

pub const NO_SUCH_PROCESS: &'static str = "No such process";

pub const SERVICE_NOT_FOUND: &'static str = "Could not find specified service";

/// The text of a failure that launchctl explains better when run as root.
pub const IO_ERROR: &'static str = "Input/output error";

pub const ROOT_HINT: &'static str = " Try re-running the command as root for richer errors.";

/// A bootstrap succeeds when the command succeeds or the job is already loaded.
pub open spec fn bootstrap_ok(succeeded: bool, stderr: Seq<char>) -> bool {
    succeeded || contains(stderr, ALREADY_LOADED@)
}

/// A bootout succeeds when the command succeeds or the job is not loaded.
pub open spec fn bootout_ok(succeeded: bool, stderr: Seq<char>) -> bool {
    succeeded || contains(stderr, NOT_LOADED@) || contains(stderr, NO_SUCH_PROCESS@) || contains(
        stderr,
        SERVICE_NOT_FOUND@,
    )
}

pub open spec fn is_launchctl_error(e: AppError, m: Seq<char>) -> bool {
    &&& e is Launchctl
    &&& e->Launchctl_0@ == m
}

pub open spec fn bootstrap_failure(plist_path: Seq<char>, stderr: Seq<char>) -> Seq<char> {
    "Bootstrap failed for "@ + plist_path + ": "@ + stderr + if contains(stderr, IO_ERROR@) {
        ROOT_HINT@
    } else {
        ""@
    }
}

/// The result of `launchctl bootstrap gui/<uid> <plist_path>` that exited
/// with `succeeded` and printed `stderr`.
pub fn bootstrap_result(plist_path: &str, succeeded: bool, stderr: &str) -> (r: Result<(), AppError>)
    ensures
        r is Ok <==> bootstrap_ok(succeeded, stderr@),
        r is Err ==> is_launchctl_error(r->Err_0, bootstrap_failure(plist_path@, stderr@)),
{
    let text = chars_of(stderr);
    if succeeded || contains_chars(&text, &chars_of(ALREADY_LOADED)) {
        return Ok(());
    }
    let hint = if contains_chars(&text, &chars_of(IO_ERROR)) {
        ROOT_HINT
    } else {
        ""
    };
    let mut m = String::from_str("Bootstrap failed for ");
    m.append(plist_path);
    m.append(": ");
    m.append(stderr);
    m.append(hint);
    Err(AppError::Launchctl(m))
}

/// The result of `launchctl bootout gui/<uid> <plist_path>` that exited with
/// `succeeded` and printed `stderr`.
pub fn bootout_result(succeeded: bool, stderr: &str) -> (r: Result<(), AppError>)
    ensures
        r is Ok <==> bootout_ok(succeeded, stderr@),
        r is Err ==> is_launchctl_error(r->Err_0, "launchctl bootout failed: "@ + stderr@),
{
    let benign: [&str; 3] = [NOT_LOADED, NO_SUCH_PROCESS, SERVICE_NOT_FOUND];
    let outcome = classify(succeeded, stderr, &benign);
    let ghost pats = pattern_views(benign@);
    assert(pats[0] == NOT_LOADED@ && pats[1] == NO_SUCH_PROCESS@ && pats[2] == SERVICE_NOT_FOUND@);
    assert(any_pattern(stderr@, pats) <==> (contains(stderr@, NOT_LOADED@) || contains(
        stderr@,
        NO_SUCH_PROCESS@,
    ) || contains(stderr@, SERVICE_NOT_FOUND@)));
    match outcome {
        Outcome::Fatal => {
            let mut m = String::from_str("launchctl bootout failed: ");
            m.append(stderr);
            Err(AppError::Launchctl(m))
        },
        _ => Ok(()),
    }
}

/// The result of a `launchctl <subcommand>` with no benign failures (list,
/// kickstart, enable, disable) that exited with `succeeded` and printed
/// `stderr`.
pub fn command_result(subcommand: &str, succeeded: bool, stderr: &str) -> (r: Result<(), AppError>)
    ensures
        r is Ok <==> succeeded,
        r is Err ==> is_launchctl_error(
            r->Err_0,
            "launchctl "@ + subcommand@ + " failed: "@ + stderr@,
        ),
{
    if succeeded {
        return Ok(());
    }
    let mut m = String::from_str("launchctl ");
    m.append(subcommand);
    m.append(" failed: ");
    m.append(stderr);
    Err(AppError::Launchctl(m))
}

/// Bootstrap is idempotent: a bootstrap that succeeds leaves the job loaded,
/// and the second bootstrap, which the manager refuses with "already loaded",
/// is reported as success too.
pub proof fn lemma_bootstrap_idempotent(first_stderr: Seq<char>, second_stderr: Seq<char>)
    requires
        contains(second_stderr, ALREADY_LOADED@),
    ensures
        bootstrap_ok(true, first_stderr),
        bootstrap_ok(false, second_stderr),
{
}

/// Bootout is idempotent: on a job that is not loaded, the manager fails with
/// one of the not-loaded texts, and the bootout is reported as success.
pub proof fn lemma_bootout_idempotent(stderr: Seq<char>)
    requires
        contains(stderr, NOT_LOADED@) || contains(stderr, NO_SUCH_PROCESS@) || contains(
            stderr,
            SERVICE_NOT_FOUND@,
        ),
    ensures
        bootout_ok(false, stderr),
{
}

/// A text without separators is one piece; with one separator appended it
/// is that piece and an empty one.
pub proof fn lemma_split_single(s: Seq<char>, sep: char)
    requires
        forall|i: int| 0 <= i < s.len() ==> s[i] != sep,
    ensures
        split_on(s, sep) == seq![s],
        split_on(s.push(sep), sep) == seq![s, Seq::<char>::empty()],
    decreases s.len(),
{
    if s.len() > 0 {
        lemma_split_single(s.drop_last(), sep);
        assert(s.drop_last().push(s.last()) =~= s);
        assert(seq![s.drop_last()].update(0, s.drop_last().push(s.last())) =~= seq![s]);
    } else {
        assert(s =~= Seq::<char>::empty());
    }
    assert(s.push(sep).drop_last() =~= s);
    assert(s.push(sep).last() == sep);
    assert(split_on(s.push(sep), sep) == split_on(s, sep).push(Seq::<char>::empty()));
    assert(seq![s].push(Seq::<char>::empty()) =~= seq![s, Seq::<char>::empty()]);
}

/// Lines that each hold a service give exactly one entry each, in order.
pub proof fn lemma_rows_in_order(lines: Seq<Seq<char>>)
    requires
        forall|i: int| 0 <= i < lines.len() ==> (#[trigger] row_of(lines[i])) is Some,
    ensures
        rows_of(lines).len() == lines.len(),
        forall|i: int|
            0 <= i < lines.len() ==> #[trigger] rows_of(lines)[i] == row_of(lines[i])->Some_0,
    decreases lines.len(),
{
    if lines.len() > 0 {
        let g = lines.drop_last();
        assert forall|i: int| 0 <= i < g.len() implies (#[trigger] row_of(g[i])) is Some by {
            assert(g[i] == lines[i]);
            assert(row_of(lines[i]) is Some);
        }
        lemma_rows_in_order(g);
        assert(row_of(lines[lines.len() - 1]) is Some);
        assert forall|i: int| 0 <= i < lines.len() implies #[trigger] rows_of(lines)[i] == row_of(
            lines[i],
        )->Some_0 by {
            if i < g.len() {
                assert(g[i] == lines[i]);
                assert(rows_of(g)[i] == row_of(g[i])->Some_0);
            }
        }
    }
}

pub proof fn lemma_rows_concat(a: Seq<Seq<char>>, b: Seq<Seq<char>>)
    ensures
        rows_of(a + b) == rows_of(a) + rows_of(b),
    decreases b.len(),
{
    if b.len() == 0 {
        assert(a + b =~= a);
        assert(rows_of(a) + rows_of(b) =~= rows_of(a));
    } else {
        lemma_rows_concat(a, b.drop_last());
        assert((a + b).drop_last() =~= a + b.drop_last());
        assert((a + b).last() == b.last());
        match row_of(b.last()) {
            Some(r) => {
                assert(rows_of(a) + rows_of(b.drop_last()).push(r) =~= (rows_of(a) + rows_of(
                    b.drop_last(),
                )).push(r));
            },
            None => {},
        }
    }
}

/// A line with fewer than three tab-separated fields is dropped without
/// affecting the entries of the other lines.
pub proof fn lemma_malformed_dropped(before: Seq<Seq<char>>, bad: Seq<char>, after: Seq<Seq<char>>)
    requires
        split_on(bad, '\t').len() < 3,
    ensures
        rows_of(before.push(bad) + after) == rows_of(before + after),
{
    lemma_rows_concat(before.push(bad), after);
    lemma_rows_concat(before, after);
    assert(before.push(bad).drop_last() =~= before);
}

/// A pid field of `-` gives an absent pid.
pub proof fn lemma_dash_pid_absent()
    ensures
        parse_u32(seq!['-']) is None,
{
    assert(!is_digit('-'));
    assert(!all_digits(seq!['-']));
}

/// A listing that holds only its header line, with or without a final line
/// feed, has no entries.
pub proof fn lemma_header_only(header: Seq<char>)
    requires
        forall|i: int| 0 <= i < header.len() ==> header[i] != '\n',
    ensures
        listing(header).len() == 0,
        listing(header.push('\n')).len() == 0,
{
    lemma_split_single(header, '\n');
    assert(seq![header].drop_first() =~= Seq::<Seq<char>>::empty());
    let rest = seq![header, Seq::<char>::empty()].drop_first();
    assert(rest =~= seq![Seq::<char>::empty()]);
    assert(rest.drop_last() =~= Seq::<Seq<char>>::empty());
    assert(split_on(Seq::<char>::empty(), '\t') == seq![Seq::<char>::empty()]);
}

/// Splitting `a`, a separator, and `b` gives the pieces of `a` followed by
/// those of `b`.
pub proof fn lemma_split_concat(a: Seq<char>, sep: char, b: Seq<char>)
    ensures
        split_on(a.push(sep) + b, sep) == split_on(a, sep) + split_on(b, sep),
    decreases b.len(),
{
    lemma_split_nonempty(a, sep);
    lemma_split_nonempty(b, sep);
    if b.len() == 0 {
        assert(a.push(sep) + b =~= a.push(sep));
        assert(a.push(sep).drop_last() =~= a);
        assert(split_on(a.push(sep), sep) == split_on(a, sep).push(Seq::<char>::empty()));
        assert(split_on(a, sep) + split_on(b, sep) =~= split_on(a, sep).push(Seq::<char>::empty()));
    } else {
        let t = a.push(sep) + b;
        lemma_split_concat(a, sep, b.drop_last());
        lemma_split_nonempty(b.drop_last(), sep);
        assert(t.drop_last() =~= a.push(sep) + b.drop_last());
        assert(t.last() == b.last());
        let pa = split_on(a, sep);
        let pb = split_on(b.drop_last(), sep);
        if b.last() == sep {
            assert((pa + pb).push(Seq::<char>::empty()) =~= pa + pb.push(Seq::<char>::empty()));
        } else {
            let x = pb.last().push(b.last());
            assert((pa + pb).last() == pb.last());
            assert((pa + pb).update((pa + pb).len() - 1, x) =~= pa + pb.update(pb.len() - 1, x));
        }
    }
}

/// The text of a header line followed by the given lines, each after a line
/// feed.
pub open spec fn listing_text(header: Seq<char>, rows: Seq<Seq<char>>) -> Seq<char>
    decreases rows.len(),
{
    if rows.len() == 0 {
        header
    } else {
        listing_text(header, rows.drop_last()).push('\n') + rows.last()
    }
}

pub open spec fn no_line_feed(s: Seq<char>) -> bool {
    forall|i: int| 0 <= i < s.len() ==> s[i] != '\n'
}

/// The lines of such a text are the header and the given lines.
pub proof fn lemma_listing_lines(header: Seq<char>, rows: Seq<Seq<char>>)
    requires
        no_line_feed(header),
        forall|i: int| 0 <= i < rows.len() ==> no_line_feed(#[trigger] rows[i]),
    ensures
        split_on(listing_text(header, rows), '\n') == seq![header] + rows,
    decreases rows.len(),
{
    if rows.len() == 0 {
        lemma_split_single(header, '\n');
        assert(seq![header] + rows =~= seq![header]);
    } else {
        let g = rows.drop_last();
        assert forall|i: int| 0 <= i < g.len() implies no_line_feed(#[trigger] g[i]) by {
            assert(g[i] == rows[i]);
        }
        lemma_listing_lines(header, g);
        assert(no_line_feed(rows[rows.len() - 1]));
        lemma_split_single(rows.last(), '\n');
        lemma_split_concat(listing_text(header, g), '\n', rows.last());
        assert(seq![header] + g + seq![rows.last()] =~= seq![header] + rows);
    }
}

/// The listing's entries: for a header and lines that each hold a service,
/// with or without a final line feed, one entry per line in order, each the
/// line's fields; the header is never parsed.
pub proof fn lemma_listing_in_order(header: Seq<char>, rows: Seq<Seq<char>>)
    requires
        no_line_feed(header),
        forall|i: int| 0 <= i < rows.len() ==> no_line_feed(#[trigger] rows[i]),
        forall|i: int| 0 <= i < rows.len() ==> (#[trigger] row_of(rows[i])) is Some,
    ensures
        listing(listing_text(header, rows)).len() == rows.len(),
        forall|i: int|
            0 <= i < rows.len() ==> #[trigger] listing(listing_text(header, rows))[i] == row_of(
                rows[i],
            )->Some_0,
        listing(listing_text(header, rows).push('\n')) == listing(listing_text(header, rows)),
{
    lemma_listing_lines(header, rows);
    assert((seq![header] + rows).drop_first() =~= rows);
    lemma_rows_in_order(rows);
    let e = Seq::<char>::empty();
    assert(no_line_feed(e));
    assert(rows.push(e).drop_last() =~= rows);
    assert(rows.push(e).last() == e);
    assert(listing_text(header, rows.push(e)) == listing_text(header, rows).push('\n') + e);
    assert(listing_text(header, rows).push('\n') + e =~= listing_text(header, rows).push('\n'));
    assert forall|i: int| 0 <= i < rows.push(e).len() implies no_line_feed(
        #[trigger] rows.push(e)[i],
    ) by {
        if i < rows.len() {
            assert(rows.push(e)[i] == rows[i]);
        }
    }
    lemma_listing_lines(header, rows.push(e));
    assert((seq![header] + rows.push(e)).drop_first() =~= rows.push(e));
    assert(split_on(e, '\t') == seq![e]);
}

/// A pid field of `-` gives an entry whose pid is absent, its other fields
/// read as for any line.
pub proof fn lemma_dash_pid_row(line: Seq<char>)
    requires
        split_on(line, '\t').len() >= 3,
        trim(split_on(line, '\t')[2]).len() > 0,
        trim(split_on(line, '\t')[0]) == seq!['-'],
    ensures
        row_of(line) is Some,
        row_of(line)->Some_0.pid is None,
        row_of(line)->Some_0.label == trim(split_on(line, '\t')[2]),
        row_of(line)->Some_0.last_exit_code == parse_i32(trim(split_on(line, '\t')[1])),
{
    lemma_dash_pid_absent();
}

/// A line with fewer than three fields, put anywhere after the header,
/// changes no entry of the listing.
pub proof fn lemma_listing_drops_malformed(
    header: Seq<char>,
    before: Seq<Seq<char>>,
    bad: Seq<char>,
    after: Seq<Seq<char>>,
)
    requires
        no_line_feed(header),
        no_line_feed(bad),
        forall|i: int| 0 <= i < before.len() ==> no_line_feed(#[trigger] before[i]),
        forall|i: int| 0 <= i < after.len() ==> no_line_feed(#[trigger] after[i]),
        split_on(bad, '\t').len() < 3,
    ensures
        listing(listing_text(header, before.push(bad) + after)) == listing(
            listing_text(header, before + after),
        ),
{
    let with = before.push(bad) + after;
    let without = before + after;
    assert forall|i: int| 0 <= i < with.len() implies no_line_feed(#[trigger] with[i]) by {
        if i < before.len() {
            assert(with[i] == before[i]);
        } else if i > before.len() {
            assert(with[i] == after[i - before.len() - 1]);
        }
    }
    assert forall|i: int| 0 <= i < without.len() implies no_line_feed(#[trigger] without[i]) by {
        if i < before.len() {
            assert(without[i] == before[i]);
        } else {
            assert(without[i] == after[i - before.len()]);
        }
    }
    lemma_listing_lines(header, with);
    lemma_listing_lines(header, without);
    assert((seq![header] + with).drop_first() =~= with);
    assert((seq![header] + without).drop_first() =~= without);
    lemma_malformed_dropped(before, bad, after);
}

} // verus!
