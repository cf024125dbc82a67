use vstd::prelude::*;

use crate::argument::{self, Argument, NamedValue};
use crate::desync::{self, DesyncView, LuaDesync, LuaDesyncError, LuaDesyncKind};
use crate::text;
use crate::text::{bytes_starts_with, parse_u32_radix, AT};

verus! {

/// A `--lua-init` value: a file to load (written with a leading `@`) or Lua code.
#[derive(Debug, PartialEq, Eq, Clone, Copy)]
pub enum LuaInit<'a> {
    File(&'a [u8]),
    Code(&'a [u8]),
}

/// The mathematical form of a `LuaInit`.
pub enum InitView {
    File(Seq<u8>),
    Code(Seq<u8>),
}

impl<'a> View for LuaInit<'a> {
    type V = InitView;

    open spec fn view(&self) -> InitView {
        match self {
            LuaInit::File(f) => InitView::File(f@),
            LuaInit::Code(c) => InitView::Code(c@),
        }
    }
}

/// The configuration of an nfqws2 process, read from its arguments.
#[derive(Debug, PartialEq, Eq)]
pub struct NfqwsConfig<'a> {
    pub queue_number: Option<u16>,
    pub fwmark: Option<u32>,
    pub lua_inits: Vec<LuaInit<'a>>,
    pub lua_desyncs: Vec<LuaDesync<'a>>,
}

/// The mathematical form of a configuration.
pub struct ConfigView {
    pub queue_number: Option<u16>,
    pub fwmark: Option<u32>,
    pub lua_inits: Seq<InitView>,
    pub lua_desyncs: Seq<DesyncView>,
}

/// The views of a sequence of Lua inits.
pub open spec fn inits_view(s: Seq<LuaInit>) -> Seq<InitView> {
    s.map_values(|i: LuaInit| i@)
}

/// The views of a sequence of desyncs.
pub open spec fn desyncs_view(s: Seq<LuaDesync>) -> Seq<DesyncView> {
    s.map_values(|d: LuaDesync| d@)
}

impl<'a> View for NfqwsConfig<'a> {
    type V = ConfigView;

    open spec fn view(&self) -> ConfigView {
        ConfigView {
            queue_number: self.queue_number,
            fwmark: self.fwmark,
            lua_inits: inits_view(self.lua_inits@),
            lua_desyncs: desyncs_view(self.lua_desyncs@),
        }
    }
}

/// `qnum`
pub open spec fn qnum_name() -> Seq<u8> {
    seq![113u8, 110u8, 117u8, 109u8]
}

/// `fwmark`
pub open spec fn fwmark_name() -> Seq<u8> {
    seq![102u8, 119u8, 109u8, 97u8, 114u8, 107u8]
}

/// `lua-init`
pub open spec fn lua_init_name() -> Seq<u8> {
    seq![108u8, 117u8, 97u8, 45u8, 105u8, 110u8, 105u8, 116u8]
}

/// `lua-desync`
pub open spec fn lua_desync_name() -> Seq<u8> {
    seq![108u8, 117u8, 97u8, 45u8, 100u8, 101u8, 115u8, 121u8, 110u8, 99u8]
}

/// `0x`
pub open spec fn hex_prefix() -> Seq<u8> {
    seq![48u8, 120u8]
}

/// A queue number as written: a decimal `u16`.
pub open spec fn queue_number_value(v: Seq<u8>) -> Option<u16> {
    match text::parse_unsigned(v, 10, u16::MAX as nat) {
        Some(n) => Some(n as u16),
        None => None,
    }
}

/// The queue number: the value of the first `qnum` argument, where it is a decimal `u16`.
pub open spec fn queue_number_of(args: Seq<NamedValue>) -> Option<u16> {
    match argument::first_named(args, qnum_name()) {
        Some(a) => match a.value {
            Some(v) => queue_number_value(v),
            None => None,
        },
        None => None,
    }
}

/// The firewall mark: the value of the first `fwmark` argument, where it is `0x` and a
/// hexadecimal `u32`.
pub open spec fn fwmark_of(args: Seq<NamedValue>) -> Option<u32> {
    match argument::first_named(args, fwmark_name()) {
        Some(a) => match a.value {
            Some(v) => if text::starts_with(v, hex_prefix()) {
                match text::parse_unsigned(v.skip(2), 16, u32::MAX as nat) {
                    Some(n) => Some(n as u32),
                    None => None,
                }
            } else {
                None
            },
            None => None,
        },
        None => None,
    }
}

/// The Lua init of one argument: a `lua-init` with a value; a file where the value
/// begins with `@`, code otherwise.
pub open spec fn init_of(a: NamedValue) -> Option<InitView> {
    if a.name == lua_init_name() {
        match a.value {
            Some(v) => if v.len() > 0 && v[0] == AT {
                Some(InitView::File(v.drop_first()))
            } else {
                Some(InitView::Code(v))
            },
            None => None,
        }
    } else {
        None
    }
}

/// `init_of` as a function value.
pub open spec fn init_step() -> spec_fn(NamedValue) -> Option<InitView> {
    |a: NamedValue| init_of(a)
}

/// The desync of one argument: a `lua-desync` whose value parses.
pub open spec fn desync_of(a: NamedValue) -> Option<DesyncView> {
    if a.name == lua_desync_name() {
        match a.value {
            Some(v) => desync::spec_parse_desync(v),
            None => None,
        }
    } else {
        None
    }
}

/// `desync_of` as a function value.
pub open spec fn desync_step() -> spec_fn(NamedValue) -> Option<DesyncView> {
    |a: NamedValue| desync_of(a)
}

/// What `NfqwsConfig::parse` gives for the arguments.
pub open spec fn spec_parse_config(args: Seq<NamedValue>) -> ConfigView {
    ConfigView {
        queue_number: queue_number_of(args),
        fwmark: fwmark_of(args),
        lua_inits: args.filter_map(init_step()),
        lua_desyncs: args.filter_map(desync_step()),
    }
}

/// The firewall mark is read from the first `fwmark` argument among all the arguments,
/// wherever it stands: `0x` and the hexadecimal `u32` of its value, and none where that
/// value is missing or does not read or there is no `fwmark` argument.
pub proof fn lemma_fwmark_from_first(args: Seq<NamedValue>)
    ensures
        forall|i: int| #[trigger]
            argument::is_first_with_name(args, fwmark_name(), i) ==> (match args[i].value {
                Some(v) => if text::starts_with(v, hex_prefix()) && text::parse_unsigned(
                    v.skip(2),
                    16,
                    u32::MAX as nat,
                ) is Some {
                    spec_parse_config(args).fwmark == Some(
                        text::parse_unsigned(v.skip(2), 16, u32::MAX as nat)->0 as u32,
                    )
                } else {
                    spec_parse_config(args).fwmark is None
                },
                None => spec_parse_config(args).fwmark is None,
            }),
        argument::none_with_name(args, fwmark_name()) ==> spec_parse_config(args).fwmark is None,
{
    argument::lemma_first_named_by_index(args, fwmark_name());
}

/// The queue number is read from the first `qnum` argument among all the arguments,
/// wherever it stands: the decimal `u16` of its value, and none where that value is
/// missing or does not read or there is no `qnum` argument.
pub proof fn lemma_queue_number_from_first(args: Seq<NamedValue>)
    ensures
        forall|i: int| #[trigger]
            argument::is_first_with_name(args, qnum_name(), i) ==> (match args[i].value {
                Some(v) => match text::parse_unsigned(v, 10, u16::MAX as nat) {
                    Some(n) => spec_parse_config(args).queue_number == Some(n as u16),
                    None => spec_parse_config(args).queue_number is None,
                },
                None => spec_parse_config(args).queue_number is None,
            }),
        argument::none_with_name(args, qnum_name()) ==> spec_parse_config(args).queue_number is None,
{
    argument::lemma_first_named_by_index(args, qnum_name());
}

/// The argument is a `lua-init` with a value.
pub open spec fn is_init_arg() -> spec_fn(NamedValue) -> bool {
    |a: NamedValue| a.name == lua_init_name() && a.value is Some
}

/// The argument is a `lua-desync` whose value parses as a desync.
pub open spec fn is_desync_arg() -> spec_fn(NamedValue) -> bool {
    |a: NamedValue|
        a.name == lua_desync_name() && (a.value matches Some(v) && desync::spec_parse_desync(v) is Some)
}

/// There is one Lua init per `lua-init` argument with a value, in their order: a file where
/// the value is `@` and its path, code where it is the code and does not begin with `@`.
pub proof fn lemma_inits_one_per_argument(args: Seq<NamedValue>)
    ensures
        spec_parse_config(args).lua_inits.len() == args.filter(is_init_arg()).len(),
        forall|k: int|
            0 <= k < spec_parse_config(args).lua_inits.len() ==> match #[trigger] spec_parse_config(
                args,
            ).lua_inits[k] {
                InitView::File(f) => args.filter(is_init_arg())[k].value == Some(seq![AT] + f),
                InitView::Code(c) => args.filter(is_init_arg())[k].value == Some(c) && (c.len() == 0
                    || c[0] != AT),
            },
{
    let g = |a: NamedValue| init_of(a)->0;
    assert forall|a: NamedValue| #[trigger] init_step()(a) == if is_init_arg()(a) {
        Some(g(a))
    } else {
        None::<InitView>
    } by {}
    text::lemma_filter_map_is_filter(args, init_step(), is_init_arg(), g);
    let sel = args.filter(is_init_arg());
    assert forall|k: int| 0 <= k < sel.len() implies #[trigger] is_init_arg()(sel[k]) by {
        args.lemma_filter_pred(is_init_arg(), k);
    }
    assert forall|k: int| 0 <= k < sel.len() implies match #[trigger] spec_parse_config(
        args,
    ).lua_inits[k] {
        InitView::File(f) => sel[k].value == Some(seq![AT] + f),
        InitView::Code(c) => sel[k].value == Some(c) && (c.len() == 0 || c[0] != AT),
    } by {
        assert(is_init_arg()(sel[k]));
        let v = sel[k].value->0;
        if v.len() > 0 && v[0] == AT {
            assert(v =~= seq![AT] + v.drop_first());
        }
    }
}

/// There is one desync per `lua-desync` argument whose value parses, in their order, each
/// the parse of that value, whose text is that value again.
pub proof fn lemma_desyncs_one_per_argument(args: Seq<NamedValue>)
    ensures
        spec_parse_config(args).lua_desyncs.len() == args.filter(is_desync_arg()).len(),
        forall|k: int|
            0 <= k < spec_parse_config(args).lua_desyncs.len() ==> desync::spec_parse_desync(
                args.filter(is_desync_arg())[k].value->0,
            ) == Some(#[trigger] spec_parse_config(args).lua_desyncs[k]) && desync::desync_text(
                spec_parse_config(args).lua_desyncs[k],
            ) == args.filter(is_desync_arg())[k].value->0,
{
    let g = |a: NamedValue| desync_of(a)->0;
    assert forall|a: NamedValue| #[trigger] desync_step()(a) == if is_desync_arg()(a) {
        Some(g(a))
    } else {
        None::<DesyncView>
    } by {}
    text::lemma_filter_map_is_filter(args, desync_step(), is_desync_arg(), g);
    let sel = args.filter(is_desync_arg());
    assert forall|k: int| 0 <= k < sel.len() implies desync::spec_parse_desync(sel[k].value->0)
        == Some(#[trigger] spec_parse_config(args).lua_desyncs[k]) && desync::desync_text(
        spec_parse_config(args).lua_desyncs[k],
    ) == sel[k].value->0 by {
        args.lemma_filter_pred(is_desync_arg(), k);
        desync::lemma_desync_parse_is_exact(sel[k].value->0);
    }
}

pub(crate) fn qnum_key() -> (r: [u8; 4])
    ensures
        r@ == qnum_name(),
{
    let r: [u8; 4] = [113u8, 110u8, 117u8, 109u8];
    assert(r@ =~= qnum_name());
    r
}

fn fwmark_key() -> (r: [u8; 6])
    ensures
        r@ == fwmark_name(),
{
    let r: [u8; 6] = [102u8, 119u8, 109u8, 97u8, 114u8, 107u8];
    assert(r@ =~= fwmark_name());
    r
}

fn lua_init_key() -> (r: [u8; 8])
    ensures
        r@ == lua_init_name(),
{
    let r: [u8; 8] = [108u8, 117u8, 97u8, 45u8, 105u8, 110u8, 105u8, 116u8];
    assert(r@ =~= lua_init_name());
    r
}

fn lua_desync_key() -> (r: [u8; 10])
    ensures
        r@ == lua_desync_name(),
{
    let r: [u8; 10] = [108u8, 117u8, 97u8, 45u8, 100u8, 101u8, 115u8, 121u8, 110u8, 99u8];
    assert(r@ =~= lua_desync_name());
    r
}

fn hex_prefix_key() -> (r: [u8; 2])
    ensures
        r@ == hex_prefix(),
{
    let r: [u8; 2] = [48u8, 120u8];
    assert(r@ =~= hex_prefix());
    r
}

/// Reads a queue number: a decimal `u16`.
pub fn parse_queue_number(v: &[u8]) -> (r: Option<u16>)
    ensures
        r == queue_number_value(v@),
{
    match parse_u32_radix(v, 10) {
        Some(n) => if n <= 0xffff {
            Some(n as u16)
        } else {
            None
        },
        None => None,
    }
}

impl<'a> NfqwsConfig<'a> {
    /// The kind of each Lua desync, in their order.
    pub fn desync_kinds(&self) -> (r: Vec<Result<LuaDesyncKind<'a>, LuaDesyncError>>)
        ensures
            r@.len() == self.lua_desyncs@.len(),
            forall|i: int|
                0 <= i < r@.len() ==> desync::kind_result_view(#[trigger] r@[i])
                    == desync::spec_kind(self.lua_desyncs@[i]@),
    {
        let mut out: Vec<Result<LuaDesyncKind<'a>, LuaDesyncError>> = Vec::new();
        let mut i: usize = 0;
        while i < self.lua_desyncs.len()
            invariant
                i <= self.lua_desyncs@.len(),
                out@.len() == i,
                forall|j: int|
                    0 <= j < i ==> desync::kind_result_view(#[trigger] out@[j])
                        == desync::spec_kind(self.lua_desyncs@[j]@),
            decreases self.lua_desyncs@.len() - i,
        {
            let k = self.lua_desyncs[i].kind();
            out.push(k);
            i = i + 1;
        }
        out
    }

    /// Reads the configuration from the arguments: the first `qnum` as a decimal `u16`,
    /// the first `fwmark` as `0x` and a hexadecimal `u32` (each absent where it has no
    /// value or the value does not read), every `lua-init` with a value, and every
    /// `lua-desync` whose value parses, in their order.
    pub fn parse(args: Vec<Argument<'a>>) -> (r: Self)
        ensures
            r@ == spec_parse_config(argument::arguments_view(args@)),
    {
        let ghost items = argument::arguments_view(args@);
        let qk = qnum_key();
        let queue_number = match argument::find_first(&args, qk.as_slice()) {
            Some(a) => match a.value {
                Some(v) => parse_queue_number(v),
                None => None,
            },
            None => None,
        };
        let fk = fwmark_key();
        let hk = hex_prefix_key();
        let fwmark = match argument::find_first(&args, fk.as_slice()) {
            Some(a) => match a.value {
                Some(v) => if bytes_starts_with(v, hk.as_slice()) {
                    let digits = vstd::slice::slice_subrange(v, 2, v.len());
                    assert(digits@ =~= v@.skip(2));
                    parse_u32_radix(digits, 16)
                } else {
                    None
                },
                None => None,
            },
            None => None,
        };
        let ik = lua_init_key();
        let dk = lua_desync_key();
        let mut lua_inits: Vec<LuaInit<'a>> = Vec::new();
        let mut lua_desyncs: Vec<LuaDesync<'a>> = Vec::new();
        let mut i: usize = 0;
        while i < args.len()
            invariant
                i <= args@.len(),
                items == argument::arguments_view(args@),
                ik@ == lua_init_name(),
                dk@ == lua_desync_name(),
                inits_view(lua_inits@) == items.take(i as int).filter_map(init_step()),
                desyncs_view(lua_desyncs@) == items.take(i as int).filter_map(desync_step()),
            decreases args@.len() - i,
        {
            proof {
                items.lemma_filter_map_take_succ(init_step(), i as int);
                items.lemma_filter_map_take_succ(desync_step(), i as int);
            }
            let a = args[i];
            assert(a@ == items[i as int]);
            let ghost inits_before = lua_inits@;
            let ghost desyncs_before = lua_desyncs@;
            if text::bytes_eq(a.name, ik.as_slice()) {
                if let Some(v) = a.value {
                    if v.len() > 0 && v[0] == AT {
                        let path = vstd::slice::slice_subrange(v, 1, v.len());
                        assert(path@ =~= v@.drop_first());
                        lua_inits.push(LuaInit::File(path));
                    } else {
                        lua_inits.push(LuaInit::Code(v));
                    }
                    assert(inits_view(lua_inits@) =~= inits_view(inits_before).push(
                        lua_inits@[inits_before.len() as int]@,
                    ));
                }
            }
            if text::bytes_eq(a.name, dk.as_slice()) {
                if let Some(v) = a.value {
                    if let Some(d) = desync::parse(v) {
                        lua_desyncs.push(d);
                        assert(desyncs_view(lua_desyncs@) =~= desyncs_view(desyncs_before).push(
                            lua_desyncs@[desyncs_before.len() as int]@,
                        ));
                    }
                }
            }
            i = i + 1;
        }
        assert(items.take(items.len() as int) =~= items);
        NfqwsConfig { queue_number, fwmark, lua_inits, lua_desyncs }
    }
}

} // verus!
