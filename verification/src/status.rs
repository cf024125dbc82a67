use vstd::prelude::*;

use crate::config::{self, ConfigView, InitView, LuaInit, NfqwsConfig};
use crate::desync::{self, DesyncView, KindView, LuaDesync, LuaDesyncKind};
use crate::process::{self, NfqwsProcess, ProcessView};

verus! {

/// What std's `String::from_utf8_lossy` makes of the bytes: the text they encode, with
/// each invalid sequence replaced by U+FFFD.
pub uninterp spec fn lossy_utf8(bytes: Seq<u8>) -> Seq<char>;

/// Calls std's `String::from_utf8_lossy` and takes the result as an owned `String`.
/// Claims that the result is `lossy_utf8` of the bytes, and that bytes that are valid
/// UTF-8 come back as the text that they encode (as the function's documentation says:
/// valid input is returned unchanged). Which characters stand for invalid input is left
/// to the name.
#[verifier::external_body]
fn text_from_bytes(bytes: &[u8]) -> (r: String)
    ensures
        r@ == lossy_utf8(bytes@),
        vstd::utf8::valid_utf8(bytes@) ==> r@ == vstd::utf8::decode_utf8(bytes@),
{
    String::from_utf8_lossy(bytes).into_owned()
}

/// The text that a report shows for bytes: the text they encode where they are valid
/// UTF-8; otherwise what std's lossy decoding makes of them.
pub open spec fn report_text(bytes: Seq<u8>) -> Seq<char> {
    if vstd::utf8::valid_utf8(bytes) {
        vstd::utf8::decode_utf8(bytes)
    } else {
        lossy_utf8(bytes)
    }
}

/// A Lua init in a status report.
#[derive(Debug, PartialEq, Eq)]
pub enum LuaInitStatus {
    File(String),
    Code(String),
}

/// A Lua desync in a status report.
#[derive(Debug, PartialEq, Eq)]
pub enum LuaDesyncStatus {
    Wssize { wsize: Option<u32>, scale: Option<u32> },
    Multidisorder { positions: Vec<String> },
    Unknown { function: String },
    Invalid { function: String },
}

/// The configuration in a status report.
#[derive(Debug, PartialEq, Eq)]
pub struct ConfigStatus {
    pub queue_number: Option<u16>,
    pub fwmark: Option<u32>,
    pub lua_inits: Vec<LuaInitStatus>,
    pub lua_desyncs: Vec<LuaDesyncStatus>,
}

/// The status report of nfqws2: whether it runs, and if so its id, command and
/// configuration.
#[derive(Debug, PartialEq, Eq)]
pub struct Status {
    pub running: bool,
    pub pid: Option<u32>,
    pub command: Option<String>,
    pub config: Option<ConfigStatus>,
}

/// The mathematical form of a `LuaInitStatus`.
pub enum InitStatusView {
    File(Seq<char>),
    Code(Seq<char>),
}

/// The mathematical form of a `LuaDesyncStatus`.
pub enum DesyncStatusView {
    Wssize { wsize: Option<u32>, scale: Option<u32> },
    Multidisorder { positions: Seq<Seq<char>> },
    Unknown { function: Seq<char> },
    Invalid { function: Seq<char> },
}

/// The mathematical form of a `ConfigStatus`.
pub struct ConfigStatusView {
    pub queue_number: Option<u16>,
    pub fwmark: Option<u32>,
    pub lua_inits: Seq<InitStatusView>,
    pub lua_desyncs: Seq<DesyncStatusView>,
}

/// The mathematical form of a `Status`.
pub struct StatusView {
    pub running: bool,
    pub pid: Option<u32>,
    pub command: Option<Seq<char>>,
    pub config: Option<ConfigStatusView>,
}

/// The texts of a sequence of strings.
pub open spec fn strings_view(s: Seq<String>) -> Seq<Seq<char>> {
    s.map_values(|t: String| t@)
}

impl View for LuaInitStatus {
    type V = InitStatusView;

    open spec fn view(&self) -> InitStatusView {
        match self {
            LuaInitStatus::File(f) => InitStatusView::File(f@),
            LuaInitStatus::Code(c) => InitStatusView::Code(c@),
        }
    }
}

impl View for LuaDesyncStatus {
    type V = DesyncStatusView;

    open spec fn view(&self) -> DesyncStatusView {
        match self {
            LuaDesyncStatus::Wssize { wsize, scale } => DesyncStatusView::Wssize {
                wsize: *wsize,
                scale: *scale,
            },
            LuaDesyncStatus::Multidisorder { positions } => DesyncStatusView::Multidisorder {
                positions: strings_view(positions@),
            },
            LuaDesyncStatus::Unknown { function } => DesyncStatusView::Unknown {
                function: function@,
            },
            LuaDesyncStatus::Invalid { function } => DesyncStatusView::Invalid {
                function: function@,
            },
        }
    }
}

/// The views of a sequence of Lua init statuses.
pub open spec fn init_statuses_view(s: Seq<LuaInitStatus>) -> Seq<InitStatusView> {
    s.map_values(|i: LuaInitStatus| i@)
}

/// The views of a sequence of Lua desync statuses.
pub open spec fn desync_statuses_view(s: Seq<LuaDesyncStatus>) -> Seq<DesyncStatusView> {
    s.map_values(|d: LuaDesyncStatus| d@)
}

impl View for ConfigStatus {
    type V = ConfigStatusView;

    open spec fn view(&self) -> ConfigStatusView {
        ConfigStatusView {
            queue_number: self.queue_number,
            fwmark: self.fwmark,
            lua_inits: init_statuses_view(self.lua_inits@),
            lua_desyncs: desync_statuses_view(self.lua_desyncs@),
        }
    }
}

impl View for Status {
    type V = StatusView;

    open spec fn view(&self) -> StatusView {
        StatusView {
            running: self.running,
            pid: self.pid,
            command: match self.command {
                Some(c) => Some(c@),
                None => None,
            },
            config: match self.config {
                Some(c) => Some(c@),
                None => None,
            },
        }
    }
}

/// The report of a Lua init: its file or its code as text.
pub open spec fn init_status(i: InitView) -> InitStatusView {
    match i {
        InitView::File(f) => InitStatusView::File(report_text(f)),
        InitView::Code(c) => InitStatusView::Code(report_text(c)),
    }
}

/// The report of a Lua desync: its kind, with the texts of its positions or its function;
/// a known function with unreadable parameters is reported invalid, under its name.
pub open spec fn desync_status(d: DesyncView) -> DesyncStatusView {
    match desync::spec_kind(d) {
        Ok(KindView::Wssize(w)) => DesyncStatusView::Wssize { wsize: w.wsize, scale: w.scale },
        Ok(KindView::Multidisorder(ps)) => DesyncStatusView::Multidisorder {
            positions: ps.map_values(|p: Seq<u8>| report_text(p)),
        },
        Ok(KindView::Unknown(f)) => DesyncStatusView::Unknown { function: report_text(f) },
        Err(_) => DesyncStatusView::Invalid { function: report_text(d.function) },
    }
}

/// The report of a configuration: its numbers as they are, and a report of each Lua init
/// and each Lua desync, in their order.
pub open spec fn config_status(c: ConfigView) -> ConfigStatusView {
    ConfigStatusView {
        queue_number: c.queue_number,
        fwmark: c.fwmark,
        lua_inits: c.lua_inits.map_values(|i: InitView| init_status(i)),
        lua_desyncs: c.lua_desyncs.map_values(|d: DesyncView| desync_status(d)),
    }
}

/// The status report for a process that was found, or for none.
pub open spec fn spec_status(p: Option<ProcessView>) -> StatusView {
    match p {
        Some(p) => StatusView {
            running: true,
            pid: Some(p.pid),
            command: match process::command_of(p.cmdline) {
                Some(c) => Some(report_text(c)),
                None => None,
            },
            config: Some(
                config_status(config::spec_parse_config(process::parsed_args_of(p.cmdline))),
            ),
        },
        None => StatusView { running: false, pid: None, command: None, config: None },
    }
}

/// The report of a configuration holds one report per Lua init and one per Lua desync,
/// in their order, and its numbers unchanged.
pub proof fn lemma_config_report_one_per_item(c: ConfigView)
    ensures
        config_status(c).queue_number == c.queue_number,
        config_status(c).fwmark == c.fwmark,
        config_status(c).lua_inits.len() == c.lua_inits.len(),
        forall|i: int|
            0 <= i < c.lua_inits.len() ==> #[trigger] config_status(c).lua_inits[i] == init_status(
                c.lua_inits[i],
            ),
        config_status(c).lua_desyncs.len() == c.lua_desyncs.len(),
        forall|i: int|
            0 <= i < c.lua_desyncs.len() ==> #[trigger] config_status(c).lua_desyncs[i]
                == desync_status(c.lua_desyncs[i]),
{
}

/// A Lua init's report keeps its kind, file or code, with the text of its value.
pub proof fn lemma_init_report_keeps_kind(f: Seq<u8>)
    ensures
        init_status(InitView::File(f)) == InitStatusView::File(report_text(f)),
        init_status(InitView::Code(f)) == InitStatusView::Code(report_text(f)),
        vstd::utf8::valid_utf8(f) ==> report_text(f) == vstd::utf8::decode_utf8(f),
{
}

/// A desync's report follows its kind: the numbers of a `wssize`; one text per position of
/// a `multidisorder`, in order; the function's text for an unknown function or for a known
/// one whose parameters do not read.
pub proof fn lemma_desync_report_follows_kind(d: DesyncView)
    ensures
        desync::spec_kind(d) matches Ok(KindView::Wssize(w)) ==> desync_status(d) == (
        DesyncStatusView::Wssize { wsize: w.wsize, scale: w.scale }),
        desync::spec_kind(d) matches Ok(KindView::Multidisorder(ps)) ==> (desync_status(d) is Multidisorder
            && desync_status(d)->positions.len() == ps.len() && forall|i: int|
            0 <= i < ps.len() ==> #[trigger] desync_status(d)->positions[i] == report_text(ps[i])),
        desync::spec_kind(d) matches Ok(KindView::Unknown(f)) ==> (desync_status(d) == (
        DesyncStatusView::Unknown { function: report_text(d.function) }) && f == d.function),
        desync::spec_kind(d) is Err ==> desync_status(d) == (DesyncStatusView::Invalid {
            function: report_text(d.function),
        }),
{
}

/// A found process is reported running with its id; its report holds one desync report per
/// `lua-desync` argument of its command line whose value parses, in order; with no process
/// nothing runs and nothing else is reported.
pub proof fn lemma_status_report(p: Option<ProcessView>)
    ensures
        spec_status(p).running <==> p is Some,
        p matches Some(q) ==> (spec_status(p).pid == Some(q.pid) && spec_status(p).config is Some
            && spec_status(p).config->0.lua_desyncs.len() == process::parsed_args_of(
            q.cmdline,
        ).filter(config::is_desync_arg()).len() && spec_status(p).config->0.lua_inits.len()
            == process::parsed_args_of(q.cmdline).filter(config::is_init_arg()).len()),
        p matches Some(q) ==> (spec_status(p).command is None <==> (q.cmdline.len() == 0
            || q.cmdline[0] == crate::text::NUL)),
        p is None ==> spec_status(p).pid is None && spec_status(p).command is None && spec_status(
            p,
        ).config is None,
{
    if let Some(q) = p {
        let args = process::parsed_args_of(q.cmdline);
        config::lemma_desyncs_one_per_argument(args);
        config::lemma_inits_one_per_argument(args);
        process::lemma_command_is_first_word(q.cmdline);
        lemma_config_report_one_per_item(config::spec_parse_config(args));
    }
}

impl LuaInitStatus {
    /// The report of a Lua init.
    pub fn from_init(init: &LuaInit) -> (r: Self)
        ensures
            r@ == init_status(init@),
    {
        match init {
            LuaInit::File(value) => LuaInitStatus::File(text_from_bytes(value)),
            LuaInit::Code(value) => LuaInitStatus::Code(text_from_bytes(value)),
        }
    }
}

impl LuaDesyncStatus {
    /// The report of a Lua desync.
    pub fn from_desync(desync: &LuaDesync) -> (r: Self)
        ensures
            r@ == desync_status(desync@),
    {
        match desync.kind() {
            Ok(LuaDesyncKind::Wssize(wssize)) => LuaDesyncStatus::Wssize {
                wsize: wssize.wsize,
                scale: wssize.scale,
            },
            Ok(LuaDesyncKind::Multidisorder(multidisorder)) => {
                let ghost ps = crate::text::slices_view(multidisorder.positions@);
                let mut positions: Vec<String> = Vec::new();
                let mut i: usize = 0;
                while i < multidisorder.positions.len()
                    invariant
                        i <= multidisorder.positions@.len(),
                        ps == crate::text::slices_view(multidisorder.positions@),
                        strings_view(positions@) == ps.take(i as int).map_values(
                            |p: Seq<u8>| report_text(p),
                        ),
                    decreases multidisorder.positions@.len() - i,
                {
                    let ghost before = positions@;
                    positions.push(text_from_bytes(multidisorder.positions[i]));
                    assert(strings_view(positions@) =~= ps.take(i + 1).map_values(
                        |p: Seq<u8>| report_text(p),
                    )) by {
                        assert(strings_view(positions@) =~= strings_view(before).push(
                            positions@[i as int]@,
                        ));
                        assert(ps.take(i + 1) =~= ps.take(i as int).push(ps[i as int]));
                    }
                    i = i + 1;
                }
                assert(ps.take(ps.len() as int) =~= ps);
                LuaDesyncStatus::Multidisorder { positions }
            },
            Ok(LuaDesyncKind::Unknown(function)) => LuaDesyncStatus::Unknown {
                function: text_from_bytes(function),
            },
            Err(_) => LuaDesyncStatus::Invalid { function: text_from_bytes(desync.function) },
        }
    }
}

impl ConfigStatus {
    /// The report of a configuration.
    pub fn from_config(config: &NfqwsConfig) -> (r: Self)
        ensures
            r@ == config_status(config@),
    {
        let ghost c = config@;
        let mut lua_inits: Vec<LuaInitStatus> = Vec::new();
        let mut i: usize = 0;
        while i < config.lua_inits.len()
            invariant
                i <= config.lua_inits@.len(),
                c == config@,
                init_statuses_view(lua_inits@) == c.lua_inits.take(i as int).map_values(
                    |x: InitView| init_status(x),
                ),
            decreases config.lua_inits@.len() - i,
        {
            let ghost before = lua_inits@;
            lua_inits.push(LuaInitStatus::from_init(&config.lua_inits[i]));
            assert(init_statuses_view(lua_inits@) =~= c.lua_inits.take(i + 1).map_values(
                |x: InitView| init_status(x),
            )) by {
                assert(init_statuses_view(lua_inits@) =~= init_statuses_view(before).push(
                    lua_inits@[i as int]@,
                ));
                assert(c.lua_inits.take(i + 1) =~= c.lua_inits.take(i as int).push(
                    c.lua_inits[i as int],
                ));
            }
            i = i + 1;
        }
        let mut lua_desyncs: Vec<LuaDesyncStatus> = Vec::new();
        let mut j: usize = 0;
        while j < config.lua_desyncs.len()
            invariant
                j <= config.lua_desyncs@.len(),
                c == config@,
                desync_statuses_view(lua_desyncs@) == c.lua_desyncs.take(j as int).map_values(
                    |x: DesyncView| desync_status(x),
                ),
            decreases config.lua_desyncs@.len() - j,
        {
            let ghost before = lua_desyncs@;
            lua_desyncs.push(LuaDesyncStatus::from_desync(&config.lua_desyncs[j]));
            assert(desync_statuses_view(lua_desyncs@) =~= c.lua_desyncs.take(j + 1).map_values(
                |x: DesyncView| desync_status(x),
            )) by {
                assert(desync_statuses_view(lua_desyncs@) =~= desync_statuses_view(before).push(
                    lua_desyncs@[j as int]@,
                ));
                assert(c.lua_desyncs.take(j + 1) =~= c.lua_desyncs.take(j as int).push(
                    c.lua_desyncs[j as int],
                ));
            }
            j = j + 1;
        }
        assert(c.lua_inits.take(c.lua_inits.len() as int) =~= c.lua_inits);
        assert(c.lua_desyncs.take(c.lua_desyncs.len() as int) =~= c.lua_desyncs);
        ConfigStatus {
            queue_number: config.queue_number,
            fwmark: config.fwmark,
            lua_inits,
            lua_desyncs,
        }
    }
}

impl Status {
    /// The status report: a found process is running, with its id, its command and the
    /// report of its configuration; without one nothing runs and nothing else is reported.
    pub fn from_process(process: Option<NfqwsProcess>) -> (r: Self)
        ensures
            r@ == spec_status(
                match process {
                    Some(p) => Some(p@),
                    None => None,
                },
            ),
    {
        match process {
            Some(process) => {
                let command = match process.command() {
                    Some(bytes) => Some(text_from_bytes(bytes)),
                    None => None,
                };
                let config = ConfigStatus::from_config(&process.config());
                Status { running: true, pid: Some(process.pid), command, config: Some(config) }
            },
            None => Status { running: false, pid: None, command: None, config: None },
        }
    }
}

} // verus!
