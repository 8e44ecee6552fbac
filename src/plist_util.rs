//! The job-definition codec: a property list, decoded by the `plist` crate
//! into the library's value model, is read into a `PlistConfig`; a
//! `PlistConfig` is written back as a dictionary in the XML encoding.
use crate::error::AppError;
use crate::text::{chars_of, string_of};
use crate::types::{CalendarInterval, PlistConfig};
use vstd::prelude::*;
use vstd::string::*;

verus! {

#[verifier::external_type_specification]
#[verifier::external_body]
pub struct ExValue(plist::Value);

/// A property-list value as the codec sees it. Dictionaries keep their
/// entries in order. Values that a job definition never reads (data, dates,
/// reals, negative integers, uids) are carried through as they were decoded.
#[derive(Debug)]
pub enum PlistValue {
    Array(Vec<PlistValue>),
    Dictionary(Vec<(String, PlistValue)>),
    Boolean(bool),
    Integer(u64),
    String(String),
    Other(plist::Value),
}

/// The mathematical form of a `PlistValue`.
pub ghost enum PV {
    Array(Seq<PV>),
    Dictionary(Seq<(Seq<char>, PV)>),
    Boolean(bool),
    Integer(u64),
    String(Seq<char>),
    Other,
}

pub open spec fn pv_of(v: PlistValue) -> PV
    decreases v,
{
    match v {
        PlistValue::Array(a) => PV::Array(
            Seq::new(
                a.len() as nat,
                |i: int|
                    if 0 <= i < a.len() {
                        pv_of(a[i])
                    } else {
                        PV::Other
                    },
            ),
        ),
        PlistValue::Dictionary(d) => PV::Dictionary(
            Seq::new(
                d.len() as nat,
                |i: int|
                    if 0 <= i < d.len() {
                        (d[i].0@, pv_of(d[i].1))
                    } else {
                        (Seq::empty(), PV::Other)
                    },
            ),
        ),
        PlistValue::Boolean(b) => PV::Boolean(b),
        PlistValue::Integer(u) => PV::Integer(u),
        PlistValue::String(s) => PV::String(s@),
        PlistValue::Other(_) => PV::Other,
    }
}

impl View for PlistValue {
    type V = PV;

    open spec fn view(&self) -> PV {
        pv_of(*self)
    }
}

pub open spec fn items_view(a: Seq<PlistValue>) -> Seq<PV> {
    a.map_values(|x: PlistValue| x@)
}

pub open spec fn entries_view(d: Seq<(String, PlistValue)>) -> Seq<(Seq<char>, PV)> {
    d.map_values(|e: (String, PlistValue)| (e.0@, e.1@))
}

pub proof fn lemma_view_array(a: Vec<PlistValue>)
    ensures
        PlistValue::Array(a)@ == PV::Array(items_view(a@)),
{
    assert(PlistValue::Array(a)@->Array_0 =~= items_view(a@));
}

pub proof fn lemma_view_dictionary(d: Vec<(String, PlistValue)>)
    ensures
        PlistValue::Dictionary(d)@ == PV::Dictionary(entries_view(d@)),
{
    assert(PlistValue::Dictionary(d)@->Dictionary_0 =~= entries_view(d@));
}

/// The value that the `plist` crate decodes from these bytes, if any.
pub uninterp spec fn decoded(b: Seq<u8>) -> Option<PV>;

/// The XML encoding that the `plist` crate writes for a value.
pub uninterp spec fn xml_of(v: PV) -> Seq<u8>;

/// The text that `String::from_utf8_lossy` makes of these bytes.
pub uninterp spec fn utf8_lossy(b: Seq<u8>) -> Seq<char>;

/// A value built of arrays, dictionaries, booleans, integers and strings only.
pub open spec fn is_plain(v: PV) -> bool
    decreases v,
{
    match v {
        PV::Array(a) => forall|i: int| 0 <= i < a.len() ==> is_plain(#[trigger] a[i]),
        PV::Dictionary(d) => forall|i: int| 0 <= i < d.len() ==> is_plain(#[trigger] d[i].1),
        PV::Other => false,
        _ => true,
    }
}

/// No key stands twice among the entries.
pub open spec fn keys_distinct<V>(e: Seq<(Seq<char>, V)>) -> bool {
    forall|i: int, j: int| 0 <= i < j < e.len() ==> #[trigger] e[i].0 != #[trigger] e[j].0
}

/// Every dictionary within the value has each key once.
pub open spec fn unique_keys(v: PV) -> bool
    decreases v,
{
    match v {
        PV::Array(a) => forall|i: int| 0 <= i < a.len() ==> unique_keys(#[trigger] a[i]),
        PV::Dictionary(d) => keys_distinct(d) && forall|i: int|
            0 <= i < d.len() ==> unique_keys(#[trigger] d[i].1),
        _ => true,
    }
}

/// Carries a decoded `plist::Value` into the codec's model, variant by variant.
#[verifier::external_body]
fn model_of(v: plist::Value) -> PlistValue {
    match v {
        plist::Value::Array(a) => PlistValue::Array(a.into_iter().map(model_of).collect()),
        plist::Value::Dictionary(d) => PlistValue::Dictionary(
            d.into_iter().map(|(k, x)| (k, model_of(x))).collect(),
        ),
        plist::Value::Boolean(b) => PlistValue::Boolean(b),
        plist::Value::String(s) => PlistValue::String(s),
        plist::Value::Integer(i) => match i.as_unsigned() {
            Some(u) => PlistValue::Integer(u),
            None => PlistValue::Other(plist::Value::Integer(i)),
        },
        other => PlistValue::Other(other),
    }
}

/// Carries the codec's model back into a `plist::Value`, variant by variant.
#[verifier::external_body]
fn outside_of(v: &PlistValue) -> plist::Value {
    match v {
        PlistValue::Array(a) => plist::Value::Array(a.iter().map(outside_of).collect()),
        PlistValue::Dictionary(d) => plist::Value::Dictionary(
            d.iter().map(|(k, x)| (k.clone(), outside_of(x))).collect(),
        ),
        PlistValue::Boolean(b) => plist::Value::Boolean(*b),
        PlistValue::Integer(u) => plist::Value::Integer((*u).into()),
        PlistValue::String(s) => plist::Value::String(s.clone()),
        PlistValue::Other(o) => o.clone(),
    }
}

/// Relies on `plist::Value::from_reader`: decodes a property list in the XML
/// or the binary encoding; the outcome depends on the bytes alone. Its
/// dictionaries are maps: each key stands in them once.
#[verifier::external_body]
fn decode_plist(data: &[u8]) -> (r: Result<PlistValue, String>)
    ensures
        match r {
            Ok(v) => decoded(data@) == Some(v@),
            Err(_) => decoded(data@) is None,
        },
        r is Ok ==> unique_keys(r->Ok_0@),
{
    plist::Value::from_reader(std::io::Cursor::new(data)).map(model_of).map_err(|e| e.to_string())
}

/// Relies on `plist::Value::to_writer_xml`: the XML encoding of a value,
/// which depends on the value alone. Writing into a `Vec` cannot fail, and
/// the writer refuses only uids, which a plain value does not hold.
#[verifier::external_body]
fn encode_xml(v: &PlistValue) -> (r: Result<Vec<u8>, String>)
    ensures
        is_plain(v@) ==> r is Ok && r->Ok_0@ == xml_of(v@),
{
    let mut buf: Vec<u8> = Vec::new();
    outside_of(v).to_writer_xml(&mut buf).map_err(|e| e.to_string())?;
    Ok(buf)
}

/// Relies on `String::from_utf8_lossy`: the text of the bytes, which depends
/// on the bytes alone.
#[verifier::external_body]
fn lossy_text(b: &[u8]) -> (r: String)
    ensures
        r@ == utf8_lossy(b@),
{
    String::from_utf8_lossy(b).to_string()
}

// ---------------------------------------------------------------------------
// Reading a job definition
/// The value of the last entry under `k`; a decoded dictionary has each key once.
pub open spec fn lookup(d: Seq<(Seq<char>, PV)>, k: Seq<char>) -> Option<PV>
    decreases d.len(),
{
    if d.len() == 0 {
        None
    } else if d.last().0 == k {
        Some(d.last().1)
    } else {
        lookup(d.drop_last(), k)
    }
}

pub open spec fn string_field(d: Seq<(Seq<char>, PV)>, k: Seq<char>) -> Option<Seq<char>> {
    match lookup(d, k) {
        Some(PV::String(s)) => Some(s),
        _ => None,
    }
}

pub open spec fn bool_field(d: Seq<(Seq<char>, PV)>, k: Seq<char>) -> Option<bool> {
    match lookup(d, k) {
        Some(PV::Boolean(b)) => Some(b),
        _ => None,
    }
}

pub open spec fn uint_field(d: Seq<(Seq<char>, PV)>, k: Seq<char>) -> Option<u64> {
    match lookup(d, k) {
        Some(PV::Integer(u)) => Some(u),
        _ => None,
    }
}

/// The strings of an array, in order; other elements are left out.
pub open spec fn strings_in(a: Seq<PV>) -> Seq<Seq<char>>
    decreases a.len(),
{
    if a.len() == 0 {
        Seq::empty()
    } else {
        let p = strings_in(a.drop_last());
        match a.last() {
            PV::String(s) => p.push(s),
            _ => p,
        }
    }
}

pub open spec fn string_array_field(d: Seq<(Seq<char>, PV)>, k: Seq<char>) -> Option<
    Seq<Seq<char>>,
> {
    match lookup(d, k) {
        Some(PV::Array(a)) => Some(strings_in(a)),
        _ => None,
    }
}

pub open spec fn narrow(o: Option<u64>) -> Option<u32> {
    match o {
        Some(v) => Some(v as u32),
        None => None,
    }
}

/// The calendar interval that a dictionary describes.
pub open spec fn interval_of(d: Seq<(Seq<char>, PV)>) -> CalendarInterval {
    CalendarInterval {
        minute: narrow(uint_field(d, "Minute"@)),
        hour: narrow(uint_field(d, "Hour"@)),
        day: narrow(uint_field(d, "Day"@)),
        weekday: narrow(uint_field(d, "Weekday"@)),
        month: narrow(uint_field(d, "Month"@)),
    }
}

/// The intervals of the dictionaries of an array, in order.
pub open spec fn intervals_in(a: Seq<PV>) -> Seq<CalendarInterval>
    decreases a.len(),
{
    if a.len() == 0 {
        Seq::empty()
    } else {
        let p = intervals_in(a.drop_last());
        match a.last() {
            PV::Dictionary(e) => p.push(interval_of(e)),
            _ => p,
        }
    }
}

/// `StartCalendarInterval`: one dictionary, or an array of them; an array
/// without any counts as absent.
pub open spec fn calendar_field(d: Seq<(Seq<char>, PV)>) -> Option<Seq<CalendarInterval>> {
    match lookup(d, "StartCalendarInterval"@) {
        Some(PV::Dictionary(e)) => Some(seq![interval_of(e)]),
        Some(PV::Array(a)) => if intervals_in(a).len() == 0 {
            None
        } else {
            Some(intervals_in(a))
        },
        _ => None,
    }
}

/// The entries of a dictionary whose values are strings, in order.
pub open spec fn string_pairs(e: Seq<(Seq<char>, PV)>) -> Seq<(Seq<char>, Seq<char>)>
    decreases e.len(),
{
    if e.len() == 0 {
        Seq::empty()
    } else {
        let p = string_pairs(e.drop_last());
        match e.last().1 {
            PV::String(s) => p.push((e.last().0, s)),
            _ => p,
        }
    }
}

pub open spec fn env_field(d: Seq<(Seq<char>, PV)>) -> Option<Seq<(Seq<char>, Seq<char>)>> {
    match lookup(d, "EnvironmentVariables"@) {
        Some(PV::Dictionary(e)) => Some(string_pairs(e)),
        _ => None,
    }
}

pub ghost struct ConfigView {
    pub label: Seq<char>,
    pub program: Option<Seq<char>>,
    pub program_arguments: Option<Seq<Seq<char>>>,
    pub run_at_load: Option<bool>,
    pub keep_alive: Option<bool>,
    pub start_interval: Option<u64>,
    pub start_calendar_interval: Option<Seq<CalendarInterval>>,
    pub standard_out_path: Option<Seq<char>>,
    pub standard_error_path: Option<Seq<char>>,
    pub working_directory: Option<Seq<char>>,
    pub environment_variables: Option<Seq<(Seq<char>, Seq<char>)>>,
    pub disabled: Option<bool>,
    pub raw_xml: Seq<char>,
}

pub open spec fn opt_view(o: Option<String>) -> Option<Seq<char>> {
    match o {
        Some(s) => Some(s@),
        None => None,
    }
}

pub open spec fn strings_view(v: Seq<String>) -> Seq<Seq<char>> {
    v.map_values(|s: String| s@)
}

pub open spec fn pairs_view(v: Seq<(String, String)>) -> Seq<(Seq<char>, Seq<char>)> {
    v.map_values(|p: (String, String)| (p.0@, p.1@))
}

impl View for PlistConfig {
    type V = ConfigView;

    open spec fn view(&self) -> ConfigView {
        ConfigView {
            label: self.label@,
            program: opt_view(self.program),
            program_arguments: match self.program_arguments {
                Some(a) => Some(strings_view(a@)),
                None => None,
            },
            run_at_load: self.run_at_load,
            keep_alive: self.keep_alive,
            start_interval: self.start_interval,
            start_calendar_interval: match self.start_calendar_interval {
                Some(v) => Some(v@),
                None => None,
            },
            standard_out_path: opt_view(self.standard_out_path),
            standard_error_path: opt_view(self.standard_error_path),
            working_directory: opt_view(self.working_directory),
            environment_variables: match self.environment_variables {
                Some(v) => Some(pairs_view(v@)),
                None => None,
            },
            disabled: self.disabled,
            raw_xml: self.raw_xml@,
        }
    }
}

/// The configuration that a top-level dictionary describes. The label is the
/// `Label` string when it is present and not empty, else `stem`.
pub open spec fn config_of(d: Seq<(Seq<char>, PV)>, stem: Seq<char>, raw: Seq<char>) -> ConfigView {
    ConfigView {
        label: match string_field(d, "Label"@) {
            Some(s) => if s.len() > 0 {
                s
            } else {
                stem
            },
            None => stem,
        },
        program: string_field(d, "Program"@),
        program_arguments: string_array_field(d, "ProgramArguments"@),
        run_at_load: bool_field(d, "RunAtLoad"@),
        keep_alive: bool_field(d, "KeepAlive"@),
        start_interval: uint_field(d, "StartInterval"@),
        start_calendar_interval: calendar_field(d),
        standard_out_path: string_field(d, "StandardOutPath"@),
        standard_error_path: string_field(d, "StandardErrorPath"@),
        working_directory: string_field(d, "WorkingDirectory"@),
        environment_variables: env_field(d),
        disabled: bool_field(d, "Disabled"@),
        raw_xml: raw,
    }
}

/// The file name of a path without its extension: the text after the last
/// `/`, up to its last `.` when that `.` is not the name's first character.
pub open spec fn file_name(path: Seq<char>) -> Seq<char> {
    if exists|i: int| 0 <= i < path.len() && path[i] == '/' {
        let s = choose|i: int|
            0 <= i < path.len() && path[i] == '/' && forall|j: int|
                i < j < path.len() ==> path[j] != '/';
        path.subrange(s + 1, path.len() as int)
    } else {
        path
    }
}

/// `path` without the `/` characters at its end.
pub open spec fn trim_slashes(path: Seq<char>) -> Seq<char>
    decreases path.len(),
{
    if path.len() > 0 && path.last() == '/' {
        trim_slashes(path.drop_last())
    } else {
        path
    }
}

/// The file name of `path`, ignoring slashes at its end, without its
/// extension.
pub open spec fn file_stem(path: Seq<char>) -> Seq<char> {
    stem_of(trim_slashes(path))
}

pub open spec fn stem_of(path: Seq<char>) -> Seq<char> {
    let name = file_name(path);
    if exists|i: int| 0 < i < name.len() && name[i] == '.' {
        let t = choose|i: int|
            0 < i < name.len() && name[i] == '.' && forall|j: int| i < j < name.len() ==> name[j]
                != '.';
        name.subrange(0, t)
    } else {
        name
    }
}

pub open spec fn is_plist_error(e: AppError, m: Seq<char>) -> bool {
    &&& e is Plist
    &&& e->Plist_0@ == m
}

fn lookup_entry<'a>(d: &'a Vec<(String, PlistValue)>, key: &str) -> (r: Option<&'a PlistValue>)
    ensures
        match r {
            Some(v) => lookup(entries_view(d@), key@) == Some(v@),
            None => lookup(entries_view(d@), key@) is None,
        },
{
    let k = String::from_str(key);
    let ghost ev = entries_view(d@);
    let mut i: usize = d.len();
    assert(ev.subrange(0, d.len() as int) =~= ev);
    while i > 0
        invariant
            i <= d.len(),
            k@ == key@,
            ev == entries_view(d@),
            lookup(ev, key@) == lookup(ev.subrange(0, i as int), key@),
        decreases i,
    {
        let ghost sub = ev.subrange(0, i as int);
        assert(sub.drop_last() =~= ev.subrange(0, i - 1));
        assert(sub.last() == (d@[i - 1].0@, d@[i - 1].1@));
        if d[i - 1].0 == k {
            return Some(&d[i - 1].1);
        }
        i = i - 1;
    }
    None
}

fn extract_string(d: &Vec<(String, PlistValue)>, key: &str) -> (r: Option<String>)
    ensures
        opt_view(r) == string_field(entries_view(d@), key@),
{
    match lookup_entry(d, key) {
        Some(PlistValue::String(s)) => Some(s.clone()),
        _ => None,
    }
}

fn extract_bool(d: &Vec<(String, PlistValue)>, key: &str) -> (r: Option<bool>)
    ensures
        r == bool_field(entries_view(d@), key@),
{
    match lookup_entry(d, key) {
        Some(PlistValue::Boolean(b)) => Some(*b),
        _ => None,
    }
}

fn extract_u64(d: &Vec<(String, PlistValue)>, key: &str) -> (r: Option<u64>)
    ensures
        r == uint_field(entries_view(d@), key@),
{
    match lookup_entry(d, key) {
        Some(PlistValue::Integer(u)) => Some(*u),
        _ => None,
    }
}

fn extract_u32(d: &Vec<(String, PlistValue)>, key: &str) -> (r: Option<u32>)
    ensures
        r == narrow(uint_field(entries_view(d@), key@)),
{
    match extract_u64(d, key) {
        Some(v) => Some(v as u32),
        None => None,
    }
}

fn extract_string_array(d: &Vec<(String, PlistValue)>, key: &str) -> (r: Option<Vec<String>>)
    ensures
        match r {
            Some(v) => string_array_field(entries_view(d@), key@) == Some(strings_view(v@)),
            None => string_array_field(entries_view(d@), key@) is None,
        },
{
    match lookup_entry(d, key) {
        Some(PlistValue::Array(a)) => {
            proof {
                lemma_view_array(*a);
            }
            let ghost iv = items_view(a@);
            let mut out: Vec<String> = Vec::new();
            let mut i: usize = 0;
            assert(iv.subrange(0, 0) =~= Seq::<PV>::empty());
            assert(strings_view(out@) =~= Seq::<Seq<char>>::empty());
            while i < a.len()
                invariant
                    i <= a.len(),
                    iv == items_view(a@),
                    strings_view(out@) == strings_in(iv.subrange(0, i as int)),
                decreases a.len() - i,
            {
                assert(iv.subrange(0, i + 1).drop_last() =~= iv.subrange(0, i as int));
                assert(iv.subrange(0, i + 1).last() == a@[i as int]@);
                let ghost before = out@;
                match &a[i] {
                    PlistValue::String(s) => {
                        out.push(s.clone());
                        assert(strings_view(out@) =~= strings_view(before).push(s@));
                    },
                    _ => {},
                }
                i = i + 1;
            }
            assert(iv.subrange(0, a.len() as int) =~= iv);
            Some(out)
        },
        _ => None,
    }
}

fn interval_from(e: &Vec<(String, PlistValue)>) -> (r: CalendarInterval)
    ensures
        r == interval_of(entries_view(e@)),
{
    CalendarInterval {
        minute: extract_u32(e, "Minute"),
        hour: extract_u32(e, "Hour"),
        day: extract_u32(e, "Day"),
        weekday: extract_u32(e, "Weekday"),
        month: extract_u32(e, "Month"),
    }
}

fn extract_calendar_intervals(d: &Vec<(String, PlistValue)>) -> (r: Option<Vec<CalendarInterval>>)
    ensures
        match r {
            Some(v) => calendar_field(entries_view(d@)) == Some(v@),
            None => calendar_field(entries_view(d@)) is None,
        },
{
    match lookup_entry(d, "StartCalendarInterval") {
        Some(PlistValue::Dictionary(e)) => {
            proof {
                lemma_view_dictionary(*e);
            }
            let mut out: Vec<CalendarInterval> = Vec::new();
            out.push(interval_from(e));
            assert(out@ =~= seq![interval_of(entries_view(e@))]);
            Some(out)
        },
        Some(PlistValue::Array(a)) => {
            proof {
                lemma_view_array(*a);
            }
            let ghost iv = items_view(a@);
            let mut out: Vec<CalendarInterval> = Vec::new();
            let mut i: usize = 0;
            assert(iv.subrange(0, 0) =~= Seq::<PV>::empty());
            assert(out@ =~= Seq::<CalendarInterval>::empty());
            while i < a.len()
                invariant
                    i <= a.len(),
                    iv == items_view(a@),
                    out@ == intervals_in(iv.subrange(0, i as int)),
                decreases a.len() - i,
            {
                assert(iv.subrange(0, i + 1).drop_last() =~= iv.subrange(0, i as int));
                assert(iv.subrange(0, i + 1).last() == a@[i as int]@);
                match &a[i] {
                    PlistValue::Dictionary(e) => {
                        proof {
                            lemma_view_dictionary(*e);
                        }
                        out.push(interval_from(e));
                    },
                    _ => {},
                }
                i = i + 1;
            }
            assert(iv.subrange(0, a.len() as int) =~= iv);
            if out.len() == 0 {
                None
            } else {
                Some(out)
            }
        },
        _ => None,
    }
}

fn extract_env_vars(d: &Vec<(String, PlistValue)>) -> (r: Option<Vec<(String, String)>>)
    ensures
        match r {
            Some(v) => env_field(entries_view(d@)) == Some(pairs_view(v@)),
            None => env_field(entries_view(d@)) is None,
        },
{
    match lookup_entry(d, "EnvironmentVariables") {
        Some(PlistValue::Dictionary(e)) => {
            proof {
                lemma_view_dictionary(*e);
            }
            let ghost ev = entries_view(e@);
            let mut out: Vec<(String, String)> = Vec::new();
            let mut i: usize = 0;
            assert(ev.subrange(0, 0) =~= Seq::<(Seq<char>, PV)>::empty());
            assert(pairs_view(out@) =~= Seq::<(Seq<char>, Seq<char>)>::empty());
            while i < e.len()
                invariant
                    i <= e.len(),
                    ev == entries_view(e@),
                    pairs_view(out@) == string_pairs(ev.subrange(0, i as int)),
                decreases e.len() - i,
            {
                assert(ev.subrange(0, i + 1).drop_last() =~= ev.subrange(0, i as int));
                assert(ev.subrange(0, i + 1).last() == (e@[i as int].0@, e@[i as int].1@));
                let ghost before = out@;
                match &e[i].1 {
                    PlistValue::String(s) => {
                        out.push((e[i].0.clone(), s.clone()));
                        assert(pairs_view(out@) =~= pairs_view(before).push((e@[i as int].0@, s@)));
                    },
                    _ => {},
                }
                i = i + 1;
            }
            assert(ev.subrange(0, e.len() as int) =~= ev);
            Some(out)
        },
        _ => None,
    }
}

/// The environment of a configuration has each variable once.
pub open spec fn env_keys_unique(c: ConfigView) -> bool {
    match c.environment_variables {
        Some(e) => keys_distinct(e),
        None => true,
    }
}

pub proof fn lemma_lookup_member(d: Seq<(Seq<char>, PV)>, k: Seq<char>)
    requires
        lookup(d, k) is Some,
    ensures
        exists|i: int| 0 <= i < d.len() && #[trigger] d[i].1 == lookup(d, k)->Some_0,
    decreases d.len(),
{
    if d.last().0 != k {
        let g = d.drop_last();
        lemma_lookup_member(g, k);
        let i = choose|i: int| 0 <= i < g.len() && #[trigger] g[i].1 == lookup(g, k)->Some_0;
        assert(d[i] == g[i]);
    } else {
        assert(d[d.len() - 1] == d.last());
    }
}

pub proof fn lemma_pairs_absent(e: Seq<(Seq<char>, PV)>, x: Seq<char>)
    requires
        forall|i: int| 0 <= i < e.len() ==> (#[trigger] e[i]).0 != x,
    ensures
        forall|k: int| 0 <= k < string_pairs(e).len() ==> (#[trigger] string_pairs(e)[k]).0 != x,
    decreases e.len(),
{
    if e.len() > 0 {
        let g = e.drop_last();
        assert forall|i: int| 0 <= i < g.len() implies (#[trigger] g[i]).0 != x by {
            assert(g[i] == e[i]);
        }
        lemma_pairs_absent(g, x);
        assert(e[e.len() - 1] == e.last());
        let p = string_pairs(g);
        assert forall|k: int| 0 <= k < string_pairs(e).len() implies (#[trigger] string_pairs(
            e,
        )[k]).0 != x by {
            if k < p.len() {
                assert(string_pairs(e)[k] == p[k]);
            }
        }
    }
}

pub proof fn lemma_pairs_distinct(e: Seq<(Seq<char>, PV)>)
    requires
        keys_distinct(e),
    ensures
        keys_distinct(string_pairs(e)),
    decreases e.len(),
{
    if e.len() > 0 {
        let g = e.drop_last();
        assert forall|i: int, j: int| 0 <= i < j < g.len() implies #[trigger] g[i].0
            != #[trigger] g[j].0 by {
            assert(g[i] == e[i] && g[j] == e[j]);
        }
        lemma_pairs_distinct(g);
        assert(e[e.len() - 1] == e.last());
        assert forall|i: int| 0 <= i < g.len() implies (#[trigger] g[i]).0 != e.last().0 by {
            assert(g[i] == e[i]);
        }
        lemma_pairs_absent(g, e.last().0);
        let p = string_pairs(g);
        let q = string_pairs(e);
        assert forall|i: int, j: int| 0 <= i < j < q.len() implies #[trigger] q[i].0
            != #[trigger] q[j].0 by {
            if j < p.len() {
                assert(q[i] == p[i] && q[j] == p[j]);
            } else {
                assert(q[i] == p[i]);
            }
        }
    }
}

/// A dictionary whose keys are unique gives an environment whose variables
/// are unique.
pub proof fn lemma_env_unique(d: Seq<(Seq<char>, PV)>, stem: Seq<char>, raw: Seq<char>)
    requires
        unique_keys(PV::Dictionary(d)),
    ensures
        env_keys_unique(config_of(d, stem, raw)),
{
    let k = "EnvironmentVariables"@;
    if lookup(d, k) is Some {
        lemma_lookup_member(d, k);
        let i = choose|i: int| 0 <= i < d.len() && #[trigger] d[i].1 == lookup(d, k)->Some_0;
        assert(unique_keys(d[i].1));
        match lookup(d, k) {
            Some(PV::Dictionary(e)) => {
                lemma_pairs_distinct(e);
            },
            _ => {},
        }
    }
}

/// The file name of `path` without its extension.
pub fn file_stem_of(path: &str) -> (r: String)
    ensures
        r@ == file_stem(path@),
{
    let p = chars_of(path);
    let mut end: usize = p.len();
    assert(p@.subrange(0, end as int) =~= p@);
    while end > 0 && p[end - 1] == '/'
        invariant
            end <= p.len(),
            trim_slashes(path@) == trim_slashes(p@.subrange(0, end as int)),
            p@ == path@,
        decreases end,
    {
        assert(p@.subrange(0, end as int).drop_last() =~= p@.subrange(0, end - 1));
        end = end - 1;
    }
    let mut q: Vec<char> = Vec::new();
    let mut k: usize = 0;
    while k < end
        invariant
            k <= end <= p.len(),
            q@ == p@.subrange(0, k as int),
        decreases end - k,
    {
        q.push(p[k]);
        assert(q@ =~= p@.subrange(0, k + 1));
        k = k + 1;
    }
    stem_of_chars(q)
}

#[verifier::rlimit(40)]
fn stem_of_chars(p: Vec<char>) -> (r: String)
    ensures
        r@ == stem_of(p@),
{
    let n = p.len();
    let mut start: usize = 0;
    let mut i: usize = 0;
    while i < n
        invariant
            i <= n,
            n == p.len(),
            start <= i,
            start == 0 ==> forall|j: int| 0 <= j < i ==> p@[j] != '/',
            start > 0 ==> p@[start - 1] == '/' && forall|j: int| start <= j < i ==> p@[j] != '/',
        decreases n - i,
    {
        if p[i] == '/' {
            start = i + 1;
        }
        i = i + 1;
    }
    let mut dot: usize = n;
    let mut k: usize = start;
    while k < n
        invariant
            start <= k <= n,
            n == p.len(),
            dot <= n,
            dot == n ==> forall|j: int| start < j < k ==> p@[j] != '.',
            dot < n ==> start < dot < k && p@[dot as int] == '.' && forall|j: int|
                dot < j < k ==> p@[j] != '.',
        decreases n - k,
    {
        if k > start && p[k] == '.' {
            dot = k;
        }
        k = k + 1;
    }
    let ghost name = p@.subrange(start as int, n as int);
    proof {
        if start > 0 {
            assert(p@[start - 1] == '/');
            let s = choose|i: int|
                0 <= i < p@.len() && p@[i] == '/' && forall|j: int|
                    i < j < p@.len() ==> p@[j] != '/';
            assert(s == start - 1) by {
                if s < start - 1 {
                    assert(p@[start - 1] != '/');
                }
            }
            assert(file_name(p@) == name);
        } else {
            assert(name =~= p@);
            assert(file_name(p@) == name);
        }
        if dot < n {
            assert(name[dot - start] == '.');
            let t = choose|i: int|
                0 < i < name.len() && name[i] == '.' && forall|j: int|
                    i < j < name.len() ==> name[j] != '.';
            assert(t == dot - start) by {
                if t < dot - start {
                    assert(name[dot - start] != '.');
                } else if t > dot - start {
                    assert(name[t] == p@[t + start]);
                }
            }
            assert(name.subrange(0, dot - start) =~= p@.subrange(start as int, dot as int));
            assert(stem_of(p@) == p@.subrange(start as int, dot as int));
        } else {
            assert forall|i: int| 0 < i < name.len() implies name[i] != '.' by {
                assert(name[i] == p@[start + i]);
                assert(start < start + i < n);
            }
            assert(stem_of(p@) == p@.subrange(start as int, n as int));
        }
    }
    let mut out: Vec<char> = Vec::new();
    let mut m: usize = start;
    let end: usize = if dot < n {
        dot
    } else {
        n
    };
    while m < end
        invariant
            start <= m <= end <= n,
            n == p.len(),
            out@ == p@.subrange(start as int, m as int),
        decreases end - m,
    {
        out.push(p[m]);
        assert(out@ =~= p@.subrange(start as int, m + 1));
        m = m + 1;
    }
    string_of(out.as_slice())
}

/// Reads the configuration out of a decoded property list. The value must
/// be a dictionary; the label falls back to the file name of `path`.
pub fn config_from_value(path: &str, value: &PlistValue, raw_xml: String) -> (r: Result<
    PlistConfig,
    AppError,
>)
    ensures
        match value@ {
            PV::Dictionary(d) => r is Ok && r->Ok_0@ == config_of(d, file_stem(path@), raw_xml@) && (
            unique_keys(value@) ==> env_keys_unique(r->Ok_0@)),
            _ => r is Err && is_plist_error(r->Err_0, path@ + ": not a dictionary"@),
        },
{
    match value {
        PlistValue::Dictionary(d) => {
            proof {
                lemma_view_dictionary(*d);
            }
            let label = match extract_string(d, "Label") {
                Some(s) => if s.as_str().unicode_len() > 0 {
                    s
                } else {
                    file_stem_of(path)
                },
                None => file_stem_of(path),
            };
            proof {
                if unique_keys(value@) {
                    lemma_env_unique(entries_view(d@), file_stem(path@), raw_xml@);
                }
            }
            let c = PlistConfig {
                label,
                program: extract_string(d, "Program"),
                program_arguments: extract_string_array(d, "ProgramArguments"),
                run_at_load: extract_bool(d, "RunAtLoad"),
                keep_alive: extract_bool(d, "KeepAlive"),
                start_interval: extract_u64(d, "StartInterval"),
                start_calendar_interval: extract_calendar_intervals(d),
                standard_out_path: extract_string(d, "StandardOutPath"),
                standard_error_path: extract_string(d, "StandardErrorPath"),
                working_directory: extract_string(d, "WorkingDirectory"),
                environment_variables: extract_env_vars(d),
                disabled: extract_bool(d, "Disabled"),
                raw_xml,
            };
            Ok(c)
        },
        _ => {
            let mut m = String::from_str(path);
            m.append(": not a dictionary");
            Err(AppError::Plist(m))
        },
    }
}

/// The bytes already look like XML: they start with `<`.
pub open spec fn looks_like_xml(b: Seq<u8>) -> bool {
    b.len() > 0 && b[0] == 0x3C
}

/// The editable XML text of a property list: XML bytes are taken as they
/// are; a binary property list is decoded and written again as XML.
pub fn read_raw_plist(data: &[u8]) -> (r: Result<String, AppError>)
    ensures
        looks_like_xml(data@) ==> r is Ok && r->Ok_0@ == utf8_lossy(data@),
        !looks_like_xml(data@) && decoded(data@) is None ==> r is Err && r->Err_0 is Plist,
        !looks_like_xml(data@) && decoded(data@) is Some && is_plain(decoded(data@)->Some_0) ==> r is Ok
            && r->Ok_0@ == utf8_lossy(xml_of(decoded(data@)->Some_0)),
        !looks_like_xml(data@) && r is Ok ==> ({
            let v = decoded(data@)->Some_0;
            &&& decoded(data@) is Some
            &&& is_plain(v) ==> r->Ok_0@ == utf8_lossy(xml_of(v))
        }),
{
    if data.len() > 0 && data[0] == 0x3C {
        return Ok(lossy_text(data));
    }
    let value = match decode_plist(data) {
        Ok(v) => v,
        Err(e) => {
            let mut m = String::from_str("failed to parse plist: ");
            m.append(e.as_str());
            return Err(AppError::Plist(m));
        },
    };
    match encode_xml(&value) {
        Ok(buf) => Ok(lossy_text(buf.as_slice())),
        Err(e) => {
            let mut m = String::from_str("failed to serialize plist to XML: ");
            m.append(e.as_str());
            Err(AppError::Plist(m))
        },
    }
}

/// The editable text that goes with the bytes of a job file: the bytes
/// themselves when they look like XML; else, for a plain decoded value, its
/// XML encoding; nothing when the bytes do not decode.
pub open spec fn raw_xml_fits(data: Seq<u8>, raw: Seq<char>) -> bool {
    if looks_like_xml(data) {
        raw == utf8_lossy(data)
    } else {
        match decoded(data) {
            Some(v) => is_plain(v) ==> raw == utf8_lossy(xml_of(v)),
            None => raw.len() == 0,
        }
    }
}

/// Parses the job definition stored at `path`, whose bytes are `data`: the
/// bytes must decode to a dictionary; `raw_xml` holds the editable XML text,
/// or nothing when it cannot be made.
pub fn parse_plist(path: &str, data: &[u8]) -> (r: Result<PlistConfig, AppError>)
    ensures
        match decoded(data@) {
            None => r is Err && exists|e: Seq<char>|
                is_plist_error(r->Err_0, path@ + ": "@ + e),
            Some(PV::Dictionary(d)) => r is Ok && r->Ok_0@ == config_of(
                d,
                file_stem(path@),
                r->Ok_0.raw_xml@,
            ),
            Some(_) => r is Err && is_plist_error(r->Err_0, path@ + ": not a dictionary"@),
        },
        r is Ok ==> raw_xml_fits(data@, r->Ok_0.raw_xml@),
        r is Ok ==> env_keys_unique(r->Ok_0@),
{
    let value = match decode_plist(data) {
        Ok(v) => v,
        Err(e) => {
            let mut m = String::from_str(path);
            m.append(": ");
            m.append(e.as_str());
            assert(is_plist_error(AppError::Plist(m), path@ + ": "@ + e@));
            return Err(AppError::Plist(m));
        },
    };
    let raw_xml = match read_raw_plist(data) {
        Ok(text) => text,
        Err(_) => String::new(),
    };
    config_from_value(path, &value, raw_xml)
}

/// The bytes to store for hand-edited XML text: the text's own bytes,
/// unchanged, when it decodes as a property list; otherwise an error, and
/// nothing to store.
pub fn raw_plist_bytes(xml: &str) -> (r: Result<Vec<u8>, AppError>)
    ensures
        r is Ok <==> decoded(xml.spec_bytes()) is Some,
        r is Ok ==> r->Ok_0@ == xml.spec_bytes(),
        r is Err ==> exists|e: Seq<char>|
            is_plist_error(r->Err_0, "invalid plist XML: "@ + e),
{
    match decode_plist(xml.as_bytes()) {
        Ok(_) => Ok(xml.as_bytes_vec()),
        Err(e) => {
            let mut m = String::from_str("invalid plist XML: ");
            m.append(e.as_str());
            assert(is_plist_error(AppError::Plist(m), "invalid plist XML: "@ + e@));
            Err(AppError::Plist(m))
        },
    }
}

// ---------------------------------------------------------------------------
// Writing a job definition
/// The entries whose value is present, in order.
pub open spec fn present(f: Seq<(Seq<char>, Option<PV>)>) -> Seq<(Seq<char>, PV)>
    decreases f.len(),
{
    if f.len() == 0 {
        Seq::empty()
    } else {
        let p = present(f.drop_last());
        match f.last().1 {
            Some(v) => p.push((f.last().0, v)),
            None => p,
        }
    }
}

pub open spec fn string_value(o: Option<Seq<char>>) -> Option<PV> {
    match o {
        Some(s) => Some(PV::String(s)),
        None => None,
    }
}

pub open spec fn bool_value(o: Option<bool>) -> Option<PV> {
    match o {
        Some(b) => Some(PV::Boolean(b)),
        None => None,
    }
}

pub open spec fn int_value(o: Option<u64>) -> Option<PV> {
    match o {
        Some(u) => Some(PV::Integer(u)),
        None => None,
    }
}

pub open spec fn small_int_value(o: Option<u32>) -> Option<PV> {
    match o {
        Some(u) => Some(PV::Integer(u as u64)),
        None => None,
    }
}

pub open spec fn string_items(a: Seq<Seq<char>>) -> Seq<PV> {
    a.map_values(|s: Seq<char>| PV::String(s))
}

pub open spec fn interval_fields(ci: CalendarInterval) -> Seq<(Seq<char>, Option<PV>)> {
    seq![
        ("Minute"@, small_int_value(ci.minute)),
        ("Hour"@, small_int_value(ci.hour)),
        ("Day"@, small_int_value(ci.day)),
        ("Weekday"@, small_int_value(ci.weekday)),
        ("Month"@, small_int_value(ci.month)),
    ]
}

/// A calendar interval as a dictionary of its present fields.
pub open spec fn interval_value(ci: CalendarInterval) -> PV {
    PV::Dictionary(present(interval_fields(ci)))
}

pub open spec fn interval_items(v: Seq<CalendarInterval>) -> Seq<PV> {
    v.map_values(|ci: CalendarInterval| interval_value(ci))
}

pub open spec fn env_entries(e: Seq<(Seq<char>, Seq<char>)>) -> Seq<(Seq<char>, PV)> {
    e.map_values(|p: (Seq<char>, Seq<char>)| (p.0, PV::String(p.1)))
}

/// Each key of a configuration with the value written under it, if any.
pub open spec fn config_fields(c: ConfigView) -> Seq<(Seq<char>, Option<PV>)> {
    seq![
        ("Label"@, Some(PV::String(c.label))),
        ("Program"@, string_value(c.program)),
        ("ProgramArguments"@, match c.program_arguments {
            Some(a) => Some(PV::Array(string_items(a))),
            None => None,
        }),
        ("RunAtLoad"@, bool_value(c.run_at_load)),
        ("KeepAlive"@, bool_value(c.keep_alive)),
        ("StartInterval"@, int_value(c.start_interval)),
        ("StartCalendarInterval"@, match c.start_calendar_interval {
            Some(v) => Some(PV::Array(interval_items(v))),
            None => None,
        }),
        ("StandardOutPath"@, string_value(c.standard_out_path)),
        ("StandardErrorPath"@, string_value(c.standard_error_path)),
        ("WorkingDirectory"@, string_value(c.working_directory)),
        ("EnvironmentVariables"@, match c.environment_variables {
            Some(e) => Some(PV::Dictionary(env_entries(e))),
            None => None,
        }),
        ("Disabled"@, bool_value(c.disabled)),
    ]
}

/// The dictionary that a configuration is written as: `Label` always, each
/// optional field only when present, calendar intervals always as an array.
pub open spec fn config_value(c: ConfigView) -> PV {
    PV::Dictionary(present(config_fields(c)))
}

pub open spec fn opt_pv(o: Option<PlistValue>) -> Option<PV> {
    match o {
        Some(x) => Some(x@),
        None => None,
    }
}

pub proof fn lemma_present_step(f: Seq<(Seq<char>, Option<PV>)>, k: int)
    requires
        0 <= k < f.len(),
    ensures
        present(f.subrange(0, k + 1)) == match f[k].1 {
            Some(v) => present(f.subrange(0, k)).push((f[k].0, v)),
            None => present(f.subrange(0, k)),
        },
{
    assert(f.subrange(0, k + 1).drop_last() =~= f.subrange(0, k));
}

fn push_field(d: &mut Vec<(String, PlistValue)>, key: &str, v: Option<PlistValue>)
    ensures
        entries_view(final(d)@) == match opt_pv(v) {
            Some(x) => entries_view(old(d)@).push((key@, x)),
            None => entries_view(old(d)@),
        },
{
    match v {
        Some(x) => {
            let ghost before = d@;
            let ghost xv = x@;
            d.push((String::from_str(key), x));
            assert(entries_view(d@) =~= entries_view(before).push((key@, xv)));
        },
        None => {},
    }
}

fn string_entry(o: &Option<String>) -> (r: Option<PlistValue>)
    ensures
        opt_pv(r) == string_value(opt_view(*o)),
{
    match o {
        Some(s) => Some(PlistValue::String(s.clone())),
        None => None,
    }
}

fn bool_entry(o: Option<bool>) -> (r: Option<PlistValue>)
    ensures
        opt_pv(r) == bool_value(o),
{
    match o {
        Some(b) => Some(PlistValue::Boolean(b)),
        None => None,
    }
}

fn small_int_entry(o: Option<u32>) -> (r: Option<PlistValue>)
    ensures
        opt_pv(r) == small_int_value(o),
{
    match o {
        Some(u) => Some(PlistValue::Integer(u as u64)),
        None => None,
    }
}

fn interval_to_value(ci: &CalendarInterval) -> (r: PlistValue)
    ensures
        r@ == interval_value(*ci),
{
    let ghost f = interval_fields(*ci);
    let mut d: Vec<(String, PlistValue)> = Vec::new();
    assert(entries_view(d@) =~= present(f.subrange(0, 0)));
    push_field(&mut d, "Minute", small_int_entry(ci.minute));
    proof {
        lemma_present_step(f, 0);
    }
    push_field(&mut d, "Hour", small_int_entry(ci.hour));
    proof {
        lemma_present_step(f, 1);
    }
    push_field(&mut d, "Day", small_int_entry(ci.day));
    proof {
        lemma_present_step(f, 2);
    }
    push_field(&mut d, "Weekday", small_int_entry(ci.weekday));
    proof {
        lemma_present_step(f, 3);
    }
    push_field(&mut d, "Month", small_int_entry(ci.month));
    proof {
        lemma_present_step(f, 4);
        assert(f.subrange(0, 5) =~= f);
        lemma_view_dictionary(d);
    }
    PlistValue::Dictionary(d)
}

fn string_array_entry(o: &Option<Vec<String>>) -> (r: Option<PlistValue>)
    ensures
        opt_pv(r) == match *o {
            Some(a) => Some(PV::Array(string_items(strings_view(a@)))),
            None => None,
        },
{
    match o {
        Some(a) => {
            let mut items: Vec<PlistValue> = Vec::new();
            let mut i: usize = 0;
            while i < a.len()
                invariant
                    i <= a.len(),
                    items_view(items@) == string_items(strings_view(a@)).subrange(0, i as int),
                decreases a.len() - i,
            {
                let ghost before = items@;
                let item = PlistValue::String(a[i].clone());
                let ghost iv = item@;
                assert(iv == PV::String(a@[i as int]@));
                items.push(item);
                assert(items_view(items@) =~= items_view(before).push(iv));
                assert(items_view(items@) =~= string_items(strings_view(a@)).subrange(0, i + 1));
                i = i + 1;
            }
            assert(string_items(strings_view(a@)).subrange(0, a.len() as int) =~= string_items(
                strings_view(a@),
            ));
            proof {
                lemma_view_array(items);
            }
            Some(PlistValue::Array(items))
        },
        None => None,
    }
}

fn calendar_entry(o: &Option<Vec<CalendarInterval>>) -> (r: Option<PlistValue>)
    ensures
        opt_pv(r) == match *o {
            Some(v) => Some(PV::Array(interval_items(v@))),
            None => None,
        },
{
    match o {
        Some(v) => {
            let mut items: Vec<PlistValue> = Vec::new();
            let mut i: usize = 0;
            while i < v.len()
                invariant
                    i <= v.len(),
                    items_view(items@) == interval_items(v@).subrange(0, i as int),
                decreases v.len() - i,
            {
                let ghost before = items@;
                let item = interval_to_value(&v[i]);
                let ghost iv = item@;
                items.push(item);
                assert(items_view(items@) =~= items_view(before).push(iv));
                assert(items_view(items@) =~= interval_items(v@).subrange(0, i + 1));
                i = i + 1;
            }
            assert(interval_items(v@).subrange(0, v.len() as int) =~= interval_items(v@));
            proof {
                lemma_view_array(items);
            }
            Some(PlistValue::Array(items))
        },
        None => None,
    }
}

fn env_entry(o: &Option<Vec<(String, String)>>) -> (r: Option<PlistValue>)
    ensures
        opt_pv(r) == match *o {
            Some(e) => Some(PV::Dictionary(env_entries(pairs_view(e@)))),
            None => None,
        },
{
    match o {
        Some(e) => {
            let mut entries: Vec<(String, PlistValue)> = Vec::new();
            let mut i: usize = 0;
            while i < e.len()
                invariant
                    i <= e.len(),
                    entries_view(entries@) == env_entries(pairs_view(e@)).subrange(0, i as int),
                decreases e.len() - i,
            {
                let ghost before = entries@;
                let item = PlistValue::String(e[i].1.clone());
                let ghost iv = item@;
                assert(iv == PV::String(e@[i as int].1@));
                entries.push((e[i].0.clone(), item));
                assert(entries_view(entries@) =~= entries_view(before).push((e@[i as int].0@, iv)));
                assert(entries_view(entries@) =~= env_entries(pairs_view(e@)).subrange(0, i + 1));
                i = i + 1;
            }
            assert(env_entries(pairs_view(e@)).subrange(0, e.len() as int) =~= env_entries(
                pairs_view(e@),
            ));
            proof {
                lemma_view_dictionary(entries);
            }
            Some(PlistValue::Dictionary(entries))
        },
        None => None,
    }
}

/// The dictionary that `config` is written as.
pub fn plist_value_of(config: &PlistConfig) -> (r: PlistValue)
    ensures
        r@ == config_value(config@),
{
    let ghost f = config_fields(config@);
    let mut d: Vec<(String, PlistValue)> = Vec::new();
    assert(entries_view(d@) =~= present(f.subrange(0, 0)));
    push_field(&mut d, "Label", Some(PlistValue::String(config.label.clone())));
    proof {
        lemma_present_step(f, 0);
    }
    push_field(&mut d, "Program", string_entry(&config.program));
    proof {
        lemma_present_step(f, 1);
    }
    push_field(&mut d, "ProgramArguments", string_array_entry(&config.program_arguments));
    proof {
        lemma_present_step(f, 2);
    }
    push_field(&mut d, "RunAtLoad", bool_entry(config.run_at_load));
    proof {
        lemma_present_step(f, 3);
    }
    push_field(&mut d, "KeepAlive", bool_entry(config.keep_alive));
    proof {
        lemma_present_step(f, 4);
    }
    let interval = match config.start_interval {
        Some(u) => Some(PlistValue::Integer(u)),
        None => None,
    };
    push_field(&mut d, "StartInterval", interval);
    proof {
        lemma_present_step(f, 5);
    }
    push_field(&mut d, "StartCalendarInterval", calendar_entry(&config.start_calendar_interval));
    proof {
        lemma_present_step(f, 6);
    }
    push_field(&mut d, "StandardOutPath", string_entry(&config.standard_out_path));
    proof {
        lemma_present_step(f, 7);
    }
    push_field(&mut d, "StandardErrorPath", string_entry(&config.standard_error_path));
    proof {
        lemma_present_step(f, 8);
    }
    push_field(&mut d, "WorkingDirectory", string_entry(&config.working_directory));
    proof {
        lemma_present_step(f, 9);
    }
    push_field(&mut d, "EnvironmentVariables", env_entry(&config.environment_variables));
    proof {
        lemma_present_step(f, 10);
    }
    push_field(&mut d, "Disabled", bool_entry(config.disabled));
    proof {
        lemma_present_step(f, 11);
        assert(f.subrange(0, 12) =~= f);
        lemma_view_dictionary(d);
    }
    PlistValue::Dictionary(d)
}

pub proof fn lemma_present_plain(f: Seq<(Seq<char>, Option<PV>)>)
    requires
        forall|i: int| 0 <= i < f.len() && #[trigger] f[i].1 is Some ==> is_plain(f[i].1->Some_0),
    ensures
        is_plain(PV::Dictionary(present(f))),
    decreases f.len(),
{
    if f.len() > 0 {
        let g = f.drop_last();
        assert forall|i: int| 0 <= i < g.len() && #[trigger] g[i].1 is Some implies is_plain(
            g[i].1->Some_0,
        ) by {
            assert(g[i] == f[i]);
        }
        lemma_present_plain(g);
        let p = present(g);
        assert(f[f.len() - 1] == f.last());
        assert forall|i: int| 0 <= i < present(f).len() implies is_plain(
            #[trigger] present(f)[i].1,
        ) by {
            if i < p.len() {
                assert(present(f)[i] == p[i]);
            }
        }
    }
}

pub proof fn lemma_interval_plain(ci: CalendarInterval)
    ensures
        is_plain(interval_value(ci)),
{
    let f = interval_fields(ci);
    assert forall|i: int| 0 <= i < f.len() && #[trigger] f[i].1 is Some implies is_plain(
        f[i].1->Some_0,
    ) by {
        assert(f[i].1->Some_0 is Integer);
    }
    lemma_present_plain(f);
}

pub proof fn lemma_config_plain(c: ConfigView)
    ensures
        is_plain(config_value(c)),
{
    let f = config_fields(c);
    match c.program_arguments {
        Some(a) => {
            assert forall|i: int| 0 <= i < string_items(a).len() implies is_plain(
                #[trigger] string_items(a)[i],
            ) by {
                assert(string_items(a)[i] is String);
            }
            assert(is_plain(PV::Array(string_items(a))));
        },
        None => {},
    }
    match c.start_calendar_interval {
        Some(v) => {
            assert forall|i: int| 0 <= i < interval_items(v).len() implies is_plain(
                #[trigger] interval_items(v)[i],
            ) by {
                lemma_interval_plain(v[i]);
            }
            assert(is_plain(PV::Array(interval_items(v))));
        },
        None => {},
    }
    match c.environment_variables {
        Some(e) => {
            assert forall|i: int| 0 <= i < env_entries(e).len() implies is_plain(
                #[trigger] env_entries(e)[i].1,
            ) by {
                assert(env_entries(e)[i].1 is String);
            }
            assert(is_plain(PV::Dictionary(env_entries(e))));
        },
        None => {},
    }
    assert forall|i: int| 0 <= i < f.len() && #[trigger] f[i].1 is Some implies is_plain(
        f[i].1->Some_0,
    ) by {
        if i == 2 || i == 6 || i == 10 {
        } else {
            assert(!(f[i].1->Some_0 is Array) && !(f[i].1->Some_0 is Dictionary) && !(
            f[i].1->Some_0 is Other));
        }
    }
    lemma_present_plain(f);
}

/// The XML encoding of `config`: a dictionary of `Label` and each present
/// field.
pub fn serialize(config: &PlistConfig) -> (r: Result<Vec<u8>, AppError>)
    ensures
        r is Ok,
        r->Ok_0@ == xml_of(config_value(config@)),
{
    let value = plist_value_of(config);
    proof {
        lemma_config_plain(config@);
    }
    match encode_xml(&value) {
        Ok(buf) => Ok(buf),
        Err(e) => {
            let mut m = String::from_str("failed to write plist: ");
            m.append(e.as_str());
            Err(AppError::Plist(m))
        },
    }
}

pub proof fn lemma_lookup_absent(f: Seq<(Seq<char>, Option<PV>)>, k: Seq<char>)
    requires
        forall|j: int| 0 <= j < f.len() ==> (#[trigger] f[j]).0 != k,
    ensures
        lookup(present(f), k) is None,
    decreases f.len(),
{
    if f.len() > 0 {
        let g = f.drop_last();
        assert forall|j: int| 0 <= j < g.len() implies (#[trigger] g[j]).0 != k by {
            assert(g[j] == f[j]);
        }
        lemma_lookup_absent(g, k);
        assert(f[f.len() - 1] == f.last());
        let p = present(g);
        match f.last().1 {
            Some(v) => {
                let x = (f.last().0, v);
                assert(p.push(x).drop_last() =~= p);
                assert(present(f) == p.push(x));
            },
            None => {},
        }
    }
}

/// Among entries with distinct keys, the dictionary of present values holds
/// under each key exactly that key's value.
pub proof fn lemma_lookup_present(f: Seq<(Seq<char>, Option<PV>)>, i: int)
    requires
        0 <= i < f.len(),
        forall|j: int| 0 <= j < f.len() && j != i ==> (#[trigger] f[j]).0 != f[i].0,
    ensures
        lookup(present(f), f[i].0) == f[i].1,
    decreases f.len(),
{
    let g = f.drop_last();
    assert(f[f.len() - 1] == f.last());
    if i == f.len() - 1 {
        assert forall|j: int| 0 <= j < g.len() implies (#[trigger] g[j]).0 != f[i].0 by {
            assert(g[j] == f[j]);
        }
        lemma_lookup_absent(g, f[i].0);
    } else {
        assert forall|j: int| 0 <= j < g.len() && j != i implies (#[trigger] g[j]).0 != g[i].0 by {
            assert(g[j] == f[j]);
        }
        lemma_lookup_present(g, i);
    }
    let p = present(g);
    match f.last().1 {
        Some(v) => {
            let x = (f.last().0, v);
            assert(p.push(x).drop_last() =~= p);
            assert(present(f) == p.push(x));
        },
        None => {},
    }
}

pub proof fn lemma_strings_round_trip(a: Seq<Seq<char>>)
    ensures
        strings_in(string_items(a)) == a,
    decreases a.len(),
{
    if a.len() > 0 {
        lemma_strings_round_trip(a.drop_last());
        assert(string_items(a).drop_last() =~= string_items(a.drop_last()));
        assert(a.drop_last().push(a.last()) =~= a);
    } else {
        assert(a =~= Seq::<Seq<char>>::empty());
    }
}

pub proof fn lemma_interval_round_trip(ci: CalendarInterval)
    ensures
        interval_of(present(interval_fields(ci))) == ci,
{
    let f = interval_fields(ci);
    reveal_strlit("Minute");
    reveal_strlit("Hour");
    reveal_strlit("Day");
    reveal_strlit("Weekday");
    reveal_strlit("Month");
    assert forall|i: int, j: int| 0 <= i < 5 && 0 <= j < 5 && i != j implies f[i].0 != f[j].0 by {
        assert(f[i].0.len() != f[j].0.len() || f[i].0[0] != f[j].0[0]);
    }
    lemma_lookup_present(f, 0);
    lemma_lookup_present(f, 1);
    lemma_lookup_present(f, 2);
    lemma_lookup_present(f, 3);
    lemma_lookup_present(f, 4);
}

pub proof fn lemma_intervals_round_trip(v: Seq<CalendarInterval>)
    ensures
        intervals_in(interval_items(v)) == v,
    decreases v.len(),
{
    if v.len() > 0 {
        lemma_intervals_round_trip(v.drop_last());
        assert(interval_items(v).drop_last() =~= interval_items(v.drop_last()));
        lemma_interval_round_trip(v.last());
        assert(v.drop_last().push(v.last()) =~= v);
    } else {
        assert(v =~= Seq::<CalendarInterval>::empty());
    }
}

pub proof fn lemma_pairs_round_trip(e: Seq<(Seq<char>, Seq<char>)>)
    ensures
        string_pairs(env_entries(e)) == e,
    decreases e.len(),
{
    if e.len() > 0 {
        lemma_pairs_round_trip(e.drop_last());
        assert(env_entries(e).drop_last() =~= env_entries(e.drop_last()));
        assert(e.drop_last().push(e.last()) =~= e);
    } else {
        assert(e =~= Seq::<(Seq<char>, Seq<char>)>::empty());
    }
}

/// Writing a configuration and reading the written dictionary back keeps
/// the label and every optional field exactly, absent ones absent, for any
/// combination of present fields, empty lists and mappings included. Only
/// `raw_xml` is taken from the reading side. The label must not be empty,
/// and a calendar-interval list that is present must not be empty: an empty
/// array of intervals reads back as absent.
pub proof fn lemma_round_trip(c: ConfigView, stem: Seq<char>, raw: Seq<char>)
    requires
        c.label.len() > 0,
        c.start_calendar_interval is Some ==> c.start_calendar_interval->Some_0.len() > 0,
    ensures
        config_value(c) is Dictionary,
        config_of(config_value(c)->Dictionary_0, stem, raw) == (ConfigView { raw_xml: raw, ..c }),
{
    let f = config_fields(c);
    reveal_strlit("Label");
    reveal_strlit("Program");
    reveal_strlit("ProgramArguments");
    reveal_strlit("RunAtLoad");
    reveal_strlit("KeepAlive");
    reveal_strlit("StartInterval");
    reveal_strlit("StartCalendarInterval");
    reveal_strlit("StandardOutPath");
    reveal_strlit("StandardErrorPath");
    reveal_strlit("WorkingDirectory");
    reveal_strlit("EnvironmentVariables");
    reveal_strlit("Disabled");
    assert forall|i: int, j: int| 0 <= i < 12 && 0 <= j < 12 && i != j implies f[i].0 != f[j].0 by {
        assert(f[i].0.len() != f[j].0.len() || f[i].0[0] != f[j].0[0]);
    }
    lemma_lookup_present(f, 0);
    lemma_lookup_present(f, 1);
    lemma_lookup_present(f, 2);
    lemma_lookup_present(f, 3);
    lemma_lookup_present(f, 4);
    lemma_lookup_present(f, 5);
    lemma_lookup_present(f, 6);
    lemma_lookup_present(f, 7);
    lemma_lookup_present(f, 8);
    lemma_lookup_present(f, 9);
    lemma_lookup_present(f, 10);
    lemma_lookup_present(f, 11);
    match c.program_arguments {
        Some(a) => lemma_strings_round_trip(a),
        None => {},
    }
    match c.start_calendar_interval {
        Some(v) => lemma_intervals_round_trip(v),
        None => {},
    }
    match c.environment_variables {
        Some(e) => lemma_pairs_round_trip(e),
        None => {},
    }
}

} // verus!
