use vstd::prelude::*;

use crate::argument::{self, Argument, NamedValue};
use crate::text;
use crate::text::{
    bytes_eq, parse_u32_radix, split_bytes, split_once_bytes, COLON, COMMA, EQUALS,
};

verus! {

/// One `name` or `name=value` parameter of a Lua desync: the same name and optional
/// value as a command-line argument.
pub type LuaDesyncParam<'a> = Argument<'a>;

/// The value of a `--lua-desync` argument: a Lua function and its parameters.
#[derive(Debug, PartialEq, Eq)]
pub struct LuaDesync<'a> {
    pub function: &'a [u8],
    pub params: Vec<LuaDesyncParam<'a>>,
}

/// The mathematical form of a Lua desync.
pub struct DesyncView {
    pub function: Seq<u8>,
    pub params: Seq<NamedValue>,
}

/// The views of a sequence of parameters.
pub open spec fn params_view(params: Seq<LuaDesyncParam>) -> Seq<NamedValue> {
    argument::arguments_view(params)
}

impl<'a> View for LuaDesync<'a> {
    type V = DesyncView;

    open spec fn view(&self) -> DesyncView {
        DesyncView { function: self.function@, params: params_view(self.params@) }
    }
}

/// The parameters of a desync, as written: the pieces after the function.
pub open spec fn raw_params(value: Seq<u8>) -> Seq<Seq<u8>> {
    text::split_all(value, COLON).drop_first()
}

/// What `parse` gives for `value`: the pieces between its `:`s are the function and
/// then the parameters, each split at its first `=`; nothing where the function or any
/// parameter is empty.
pub open spec fn spec_parse_desync(value: Seq<u8>) -> Option<DesyncView> {
    let function = text::split_all(value, COLON)[0];
    let raw = raw_params(value);
    if function.len() == 0 || exists|i: int| 0 <= i < raw.len() && #[trigger] raw[i].len() == 0 {
        None
    } else {
        Some(
            DesyncView {
                function,
                params: raw.map_values(|p: Seq<u8>| argument::name_value(p)),
            },
        )
    }
}

/// The text of a desync: its function and the text of each parameter, joined by `:`.
pub open spec fn desync_text(d: DesyncView) -> Seq<u8> {
    text::join(
        seq![d.function] + d.params.map_values(|p: NamedValue| argument::name_value_text(p)),
        COLON,
    )
}

/// A desync that parses is exactly its function and its parameters joined by `:`, each
/// parameter written as its name and, where it has one, `=` and its value.
pub proof fn lemma_desync_parse_is_exact(value: Seq<u8>)
    requires
        spec_parse_desync(value) is Some,
    ensures
        desync_text(spec_parse_desync(value)->0) == value,
        spec_parse_desync(value)->0.function.len() > 0,
        text::free_of(spec_parse_desync(value)->0.function, COLON),
        forall|k: int|
            0 <= k < spec_parse_desync(value)->0.params.len() ==> argument::name_value_text(
                #[trigger] spec_parse_desync(value)->0.params[k],
            ).len() > 0 && text::free_of(
                argument::name_value_text(spec_parse_desync(value)->0.params[k]),
                COLON,
            ) && text::free_of(spec_parse_desync(value)->0.params[k].name, EQUALS),
{
    let d = spec_parse_desync(value)->0;
    let pieces = text::split_all(value, COLON);
    text::lemma_split_all(value, COLON);
    let texts = seq![d.function] + d.params.map_values(
        |p: NamedValue| argument::name_value_text(p),
    );
    assert forall|k: int| 0 <= k < texts.len() implies texts[k] == pieces[k] by {
        if k > 0 {
            argument::lemma_name_value_text(pieces[k]);
            assert(raw_params(value)[k - 1] == pieces[k]);
        }
    }
    assert(texts =~= pieces);
    assert forall|k: int| 0 <= k < d.params.len() implies argument::name_value_text(
        #[trigger] d.params[k],
    ).len() > 0 && text::free_of(argument::name_value_text(d.params[k]), COLON) && text::free_of(
        d.params[k].name,
        EQUALS,
    ) by {
        assert(texts[k + 1] == argument::name_value_text(d.params[k]));
        assert(raw_params(value)[k] == pieces[k + 1]);
        assert(raw_params(value)[k].len() > 0);
        argument::lemma_name_value_text(pieces[k + 1]);
    }
}

/// A value whose pieces between `:`s include an empty one, function or parameter, does not
/// parse.
pub proof fn lemma_desync_rejects_empty_piece(pieces: Seq<Seq<u8>>, k: int)
    requires
        pieces.len() >= 1,
        forall|j: int| 0 <= j < pieces.len() ==> text::free_of(#[trigger] pieces[j], COLON),
        0 <= k < pieces.len(),
        pieces[k].len() == 0,
    ensures
        spec_parse_desync(text::join(pieces, COLON)) is None,
{
    text::lemma_split_join(pieces, COLON);
    if k > 0 {
        assert(raw_params(text::join(pieces, COLON))[k - 1] == pieces[k]);
    }
}

/// A nonempty function without `:` and parameters whose names hold no `=` and whose
/// texts are nonempty and hold no `:`, written out, parse back unchanged.
pub proof fn lemma_desync_text_parses(d: DesyncView)
    requires
        d.function.len() > 0,
        text::free_of(d.function, COLON),
        forall|k: int|
            0 <= k < d.params.len() ==> text::free_of(#[trigger] d.params[k].name, EQUALS),
        forall|k: int|
            0 <= k < d.params.len() ==> argument::name_value_text(#[trigger] d.params[k]).len()
                > 0,
        forall|k: int|
            0 <= k < d.params.len() ==> text::free_of(
                argument::name_value_text(#[trigger] d.params[k]),
                COLON,
            ),
    ensures
        spec_parse_desync(desync_text(d)) == Some(d),
{
    let texts = d.params.map_values(|p: NamedValue| argument::name_value_text(p));
    let pieces = seq![d.function] + texts;
    assert forall|k: int| 0 <= k < pieces.len() implies text::free_of(#[trigger] pieces[k], COLON) by {
        if k > 0 {
            assert(pieces[k] == argument::name_value_text(d.params[k - 1]));
        }
    }
    text::lemma_split_join(pieces, COLON);
    let value = desync_text(d);
    assert(text::split_all(value, COLON) == pieces);
    assert(raw_params(value) =~= texts);
    assert forall|i: int| 0 <= i < texts.len() implies #[trigger] texts[i].len() > 0 by {
        assert(texts[i] == argument::name_value_text(d.params[i]));
    }
    let params = texts.map_values(|p: Seq<u8>| argument::name_value(p));
    assert forall|i: int| 0 <= i < params.len() implies params[i] == d.params[i] by {
        argument::lemma_name_value_of_text(d.params[i]);
    }
    assert(params =~= d.params);
}

/// Splits the value of a `--lua-desync` argument at its `:`s into the function and its
/// parameters, each parameter at its first `=`. Gives `None` when the function or any
/// parameter is empty; commas inside a parameter are kept.
pub fn parse(value: &[u8]) -> (r: Option<LuaDesync<'_>>)
    ensures
        match r {
            Some(d) => spec_parse_desync(value@) == Some(d@),
            None => spec_parse_desync(value@) is None,
        },
{
    let pieces = split_bytes(value, COLON);
    proof {
        text::lemma_split_all(value@, COLON);
    }
    let ghost all = text::split_all(value@, COLON);
    let ghost raw = raw_params(value@);
    assert(pieces@[0]@ == all[0]);
    let function: &[u8] = pieces[0];
    if function.len() == 0 {
        return None;
    }
    let mut params: Vec<LuaDesyncParam> = Vec::new();
    let mut i: usize = 1;
    while i < pieces.len()
        invariant
            1 <= i <= pieces@.len(),
            text::slices_view(pieces@) == all,
            all == text::split_all(value@, COLON),
            raw == raw_params(value@),
            raw == all.drop_first(),
            function@ == all[0],
            function@.len() > 0,
            params_view(params@) == raw.take(i - 1).map_values(
                |p: Seq<u8>| argument::name_value(p),
            ),
            forall|j: int| 0 <= j < i - 1 ==> #[trigger] raw[j].len() > 0,
        decreases pieces@.len() - i,
    {
        let piece: &[u8] = pieces[i];
        assert(piece@ == raw[i - 1]);
        if piece.len() == 0 {
            assert(raw[i - 1].len() == 0);
            return None;
        }
        let (name, pv) = split_once_bytes(piece, EQUALS);
        let ghost before = params@;
        params.push(Argument { name, value: pv });
        assert(params_view(params@) =~= raw.take(i as int).map_values(
            |p: Seq<u8>| argument::name_value(p),
        )) by {
            assert(params_view(params@) =~= params_view(before).push(params@[i - 1]@));
            assert(raw.take(i as int) =~= raw.take(i - 1).push(raw[i - 1]));
        }
        i = i + 1;
    }
    assert(raw.take(raw.len() as int) =~= raw);
    Some(LuaDesync { function, params })
}

/// The `wssize` desync: the TCP window size and scale it sets, where given.
#[derive(Debug, PartialEq, Eq, Clone, Copy)]
pub struct Wssize {
    pub wsize: Option<u32>,
    pub scale: Option<u32>,
}

/// The `multidisorder` desync: the split positions of its `pos` parameter.
#[derive(Debug, PartialEq, Eq)]
pub struct Multidisorder<'a> {
    pub positions: Vec<&'a [u8]>,
}

/// What a desync does, as far as its function is known.
#[derive(Debug, PartialEq, Eq)]
pub enum LuaDesyncKind<'a> {
    Wssize(Wssize),
    Multidisorder(Multidisorder<'a>),
    Unknown(&'a [u8]),
}

/// A known desync function whose parameters cannot be read.
#[derive(Debug, PartialEq, Eq, Clone, Copy)]
pub enum LuaDesyncError {
    InvalidParams,
}

/// The mathematical form of a desync's kind.
pub enum KindView {
    Wssize(Wssize),
    Multidisorder(Seq<Seq<u8>>),
    Unknown(Seq<u8>),
}

impl<'a> View for LuaDesyncKind<'a> {
    type V = KindView;

    open spec fn view(&self) -> KindView {
        match self {
            LuaDesyncKind::Wssize(w) => KindView::Wssize(*w),
            LuaDesyncKind::Multidisorder(m) => KindView::Multidisorder(
                text::slices_view(m.positions@),
            ),
            LuaDesyncKind::Unknown(f) => KindView::Unknown(f@),
        }
    }
}

/// The view of a kind or its error.
pub open spec fn kind_result_view(r: Result<LuaDesyncKind, LuaDesyncError>) -> Result<
    KindView,
    LuaDesyncError,
> {
    match r {
        Ok(k) => Ok(k@),
        Err(e) => Err(e),
    }
}

/// `wssize`
pub open spec fn wssize_name() -> Seq<u8> {
    seq![119u8, 115u8, 115u8, 105u8, 122u8, 101u8]
}

/// `multidisorder`
pub open spec fn multidisorder_name() -> Seq<u8> {
    seq![109u8, 117u8, 108u8, 116u8, 105u8, 100u8, 105u8, 115u8, 111u8, 114u8, 100u8, 101u8, 114u8]
}

/// `wsize`
pub open spec fn wsize_name() -> Seq<u8> {
    seq![119u8, 115u8, 105u8, 122u8, 101u8]
}

/// `scale`
pub open spec fn scale_name() -> Seq<u8> {
    seq![115u8, 99u8, 97u8, 108u8, 101u8]
}

/// `pos`
pub open spec fn pos_name() -> Seq<u8> {
    seq![112u8, 111u8, 115u8]
}

/// A numeric parameter: absent gives `None`; present, it must have a value that is a
/// decimal `u32`.
pub open spec fn numeric_param(params: Seq<NamedValue>, name: Seq<u8>) -> Result<
    Option<u32>,
    LuaDesyncError,
> {
    match argument::first_named(params, name) {
        None => Ok(None),
        Some(p) => match p.value {
            Some(v) => match text::parse_unsigned(v, 10, u32::MAX as nat) {
                Some(n) => Ok(Some(n as u32)),
                None => Err(LuaDesyncError::InvalidParams),
            },
            None => Err(LuaDesyncError::InvalidParams),
        },
    }
}

/// The positions of the `pos` parameter: none where it is absent; present, its value
/// split at `,`, where it has a value and no position is empty.
pub open spec fn positions_param(params: Seq<NamedValue>) -> Result<
    Seq<Seq<u8>>,
    LuaDesyncError,
> {
    match argument::first_named(params, pos_name()) {
        None => Ok(Seq::empty()),
        Some(p) => match p.value {
            Some(v) => {
                let ps = text::split_all(v, COMMA);
                if exists|i: int| 0 <= i < ps.len() && #[trigger] ps[i].len() == 0 {
                    Err(LuaDesyncError::InvalidParams)
                } else {
                    Ok(ps)
                }
            },
            None => Err(LuaDesyncError::InvalidParams),
        },
    }
}

/// What `kind` gives for a desync: the typed form of the `wssize` and `multidisorder`
/// functions, read from the first parameter of each name; any other function as unknown.
pub open spec fn spec_kind(d: DesyncView) -> Result<KindView, LuaDesyncError> {
    if d.function == wssize_name() {
        match (numeric_param(d.params, wsize_name()), numeric_param(d.params, scale_name())) {
            (Ok(w), Ok(s)) => Ok(KindView::Wssize(Wssize { wsize: w, scale: s })),
            _ => Err(LuaDesyncError::InvalidParams),
        }
    } else if d.function == multidisorder_name() {
        match positions_param(d.params) {
            Ok(ps) => Ok(KindView::Multidisorder(ps)),
            Err(e) => Err(e),
        }
    } else {
        Ok(KindView::Unknown(d.function))
    }
}

/// The positions of a `multidisorder` are its first `pos` parameter's value cut at every
/// comma: joined again by commas they give that value back exactly, one more than it has
/// commas, none empty and none holding a comma; without a `pos` parameter there are none.
pub proof fn lemma_multidisorder_positions(d: DesyncView, ps: Seq<Seq<u8>>)
    requires
        spec_kind(d) == Ok::<KindView, LuaDesyncError>(KindView::Multidisorder(ps)),
    ensures
        d.function == multidisorder_name(),
        forall|i: int|
            #[trigger] argument::is_first_with_name(d.params, pos_name(), i) ==> d.params[i].value
                == Some(text::join(ps, COMMA)) && ps.len() == text::count_of(
                text::join(ps, COMMA),
                COMMA,
            ) + 1,
        forall|k: int|
            0 <= k < ps.len() ==> #[trigger] ps[k].len() > 0 && text::free_of(ps[k], COMMA),
        argument::none_with_name(d.params, pos_name()) ==> ps.len() == 0,
{
    argument::lemma_first_named_by_index(d.params, pos_name());
    match argument::first_named(d.params, pos_name()) {
        Some(p) => {
            let v = p.value->0;
            text::lemma_split_all(v, COMMA);
            text::lemma_count_join(ps, COMMA);
            assert forall|k: int| 0 <= k < ps.len() implies #[trigger] ps[k].len() > 0 by {}
        },
        None => {},
    }
}

/// A `multidisorder` whose first `pos` parameter has as value nonempty, comma-free
/// positions joined by commas has exactly those positions.
pub proof fn lemma_multidisorder_accepts(d: DesyncView, i: int, ps: Seq<Seq<u8>>)
    requires
        d.function == multidisorder_name(),
        argument::is_first_with_name(d.params, pos_name(), i),
        ps.len() >= 1,
        forall|k: int|
            0 <= k < ps.len() ==> #[trigger] ps[k].len() > 0 && text::free_of(ps[k], COMMA),
        d.params[i].value == Some(text::join(ps, COMMA)),
    ensures
        spec_kind(d) == Ok::<KindView, LuaDesyncError>(KindView::Multidisorder(ps)),
{
    argument::lemma_first_named_by_index(d.params, pos_name());
    text::lemma_split_join(ps, COMMA);
    assert(!(exists|k: int| 0 <= k < ps.len() && #[trigger] ps[k].len() == 0));
}

/// A `multidisorder` without a `pos` parameter has no positions.
pub proof fn lemma_multidisorder_without_pos(d: DesyncView)
    requires
        d.function == multidisorder_name(),
        argument::none_with_name(d.params, pos_name()),
    ensures
        spec_kind(d) == Ok::<KindView, LuaDesyncError>(
            KindView::Multidisorder(Seq::<Seq<u8>>::empty()),
        ),
{
    argument::lemma_first_named_by_index(d.params, pos_name());
}

/// The first parameter of the name, where there is one, has a value that reads as a
/// decimal `u32`.
pub open spec fn number_readable(params: Seq<NamedValue>, name: Seq<u8>) -> bool {
    forall|i: int| #[trigger]
        argument::is_first_with_name(params, name, i) ==> (params[i].value matches Some(v)
            && text::parse_unsigned(v, 10, u32::MAX as nat) is Some)
}

/// The number of a `wssize` field is that of its first parameter of that name.
pub open spec fn number_is(params: Seq<NamedValue>, name: Seq<u8>, n: Option<u32>) -> bool {
    &&& forall|i: int| #[trigger]
        argument::is_first_with_name(params, name, i) ==> (params[i].value matches Some(v)
            && n matches Some(m) && text::parse_unsigned(v, 10, u32::MAX as nat) == Some(m as nat))
    &&& argument::none_with_name(params, name) ==> n is None
}

/// A `wssize` reads its window size from its first `wsize` parameter and its scale from
/// its first `scale` parameter, each absent where there is no such parameter.
pub proof fn lemma_wssize_numbers(d: DesyncView, w: Wssize)
    requires
        spec_kind(d) == Ok::<KindView, LuaDesyncError>(KindView::Wssize(w)),
    ensures
        d.function == wssize_name(),
        number_is(d.params, wsize_name(), w.wsize),
        number_is(d.params, scale_name(), w.scale),
{
    argument::lemma_first_named_by_index(d.params, wsize_name());
    argument::lemma_first_named_by_index(d.params, scale_name());
    assert(d.function != multidisorder_name()) by {
        assert(wssize_name().len() != multidisorder_name().len());
    }
}

/// A `wssize` whose `wsize` and `scale` parameters, where present, read as numbers is
/// understood, with those numbers.
pub proof fn lemma_wssize_accepts(d: DesyncView)
    requires
        d.function == wssize_name(),
        number_readable(d.params, wsize_name()),
        number_readable(d.params, scale_name()),
    ensures
        spec_kind(d) matches Ok(KindView::Wssize(w)) && number_is(d.params, wsize_name(), w.wsize)
            && number_is(d.params, scale_name(), w.scale),
{
    argument::lemma_first_named_by_index(d.params, wsize_name());
    argument::lemma_first_named_by_index(d.params, scale_name());
    match argument::first_named(d.params, wsize_name()) {
        Some(p) => {
            let i = choose|i: int| #[trigger]
                argument::is_first_with_name(d.params, wsize_name(), i) && argument::first_named(
                    d.params,
                    wsize_name(),
                ) == Some(d.params[i]);
        },
        None => {},
    }
    match argument::first_named(d.params, scale_name()) {
        Some(p) => {
            let i = choose|i: int| #[trigger]
                argument::is_first_with_name(d.params, scale_name(), i) && argument::first_named(
                    d.params,
                    scale_name(),
                ) == Some(d.params[i]);
        },
        None => {},
    }
    lemma_wssize_numbers(d, spec_kind(d)->Ok_0->Wssize_0);
}

/// Any function other than `wssize` and `multidisorder` is unknown, under its own name.
pub proof fn lemma_other_function_unknown(d: DesyncView)
    requires
        d.function != wssize_name(),
        d.function != multidisorder_name(),
    ensures
        spec_kind(d) == Ok::<KindView, LuaDesyncError>(KindView::Unknown(d.function)),
{
}

fn wssize_key() -> (r: [u8; 6])
    ensures
        r@ == wssize_name(),
{
    let r: [u8; 6] = [119u8, 115u8, 115u8, 105u8, 122u8, 101u8];
    assert(r@ =~= wssize_name());
    r
}

fn multidisorder_key() -> (r: [u8; 13])
    ensures
        r@ == multidisorder_name(),
{
    let r: [u8; 13] = [
        109u8,
        117u8,
        108u8,
        116u8,
        105u8,
        100u8,
        105u8,
        115u8,
        111u8,
        114u8,
        100u8,
        101u8,
        114u8,
    ];
    assert(r@ =~= multidisorder_name());
    r
}

fn wsize_key() -> (r: [u8; 5])
    ensures
        r@ == wsize_name(),
{
    let r: [u8; 5] = [119u8, 115u8, 105u8, 122u8, 101u8];
    assert(r@ =~= wsize_name());
    r
}

fn scale_key() -> (r: [u8; 5])
    ensures
        r@ == scale_name(),
{
    let r: [u8; 5] = [115u8, 99u8, 97u8, 108u8, 101u8];
    assert(r@ =~= scale_name());
    r
}

fn pos_key() -> (r: [u8; 3])
    ensures
        r@ == pos_name(),
{
    let r: [u8; 3] = [112u8, 111u8, 115u8];
    assert(r@ =~= pos_name());
    r
}

/// Reads a numeric parameter.
fn numeric(params: &Vec<LuaDesyncParam>, name: &[u8]) -> (r: Result<Option<u32>, LuaDesyncError>)
    ensures
        r == numeric_param(params_view(params@), name@),
{
    match argument::find_first(params, name) {
        None => Ok(None),
        Some(p) => match p.value {
            Some(v) => match parse_u32_radix(v, 10) {
                Some(n) => Ok(Some(n)),
                None => Err(LuaDesyncError::InvalidParams),
            },
            None => Err(LuaDesyncError::InvalidParams),
        },
    }
}

/// Reads the positions of the `pos` parameter.
fn positions<'a>(params: &Vec<LuaDesyncParam<'a>>) -> (r: Result<Vec<&'a [u8]>, LuaDesyncError>)
    ensures
        match r {
            Ok(ps) => positions_param(params_view(params@)) == Ok::<Seq<Seq<u8>>, LuaDesyncError>(
                text::slices_view(ps@),
            ),
            Err(e) => positions_param(params_view(params@)) == Err::<Seq<Seq<u8>>, LuaDesyncError>(
                e,
            ),
        },
{
    let key = pos_key();
    match argument::find_first(params, key.as_slice()) {
        None => {
            let empty: Vec<&'a [u8]> = Vec::new();
            assert(text::slices_view(empty@) =~= Seq::<Seq<u8>>::empty());
            Ok(empty)
        },
        Some(p) => match p.value {
            Some(v) => {
                let ps = split_bytes(v, COMMA);
                let ghost views = text::split_all(v@, COMMA);
                let mut i: usize = 0;
                while i < ps.len()
                    invariant
                        i <= ps@.len(),
                        text::slices_view(ps@) == views,
                        views == text::split_all(v@, COMMA),
                        argument::first_named(params_view(params@), pos_name()) == Some(p@),
                        p.value == Some(v),
                        forall|j: int| 0 <= j < i ==> #[trigger] views[j].len() > 0,
                    decreases ps@.len() - i,
                {
                    assert(ps@[i as int]@ == views[i as int]);
                    if ps[i].len() == 0 {
                        assert(views[i as int].len() == 0);
                        return Err(LuaDesyncError::InvalidParams);
                    }
                    i = i + 1;
                }
                Ok(ps)
            },
            None => Err(LuaDesyncError::InvalidParams),
        },
    }
}

impl<'a> LuaDesync<'a> {
    /// The typed form of this desync: `wssize` with its numeric `wsize` and `scale`,
    /// `multidisorder` with the positions of its `pos`, any other function as unknown.
    /// A known function whose parameters cannot be read gives `InvalidParams`.
    pub fn kind(&self) -> (r: Result<LuaDesyncKind<'a>, LuaDesyncError>)
        ensures
            kind_result_view(r) == spec_kind(self@),
    {
        let wssize = wssize_key();
        let multidisorder = multidisorder_key();
        if bytes_eq(self.function, wssize.as_slice()) {
            let wk = wsize_key();
            let sk = scale_key();
            let w = numeric(&self.params, wk.as_slice());
            let s = numeric(&self.params, sk.as_slice());
            match (w, s) {
                (Ok(w), Ok(s)) => Ok(LuaDesyncKind::Wssize(Wssize { wsize: w, scale: s })),
                _ => Err(LuaDesyncError::InvalidParams),
            }
        } else if bytes_eq(self.function, multidisorder.as_slice()) {
            match positions(&self.params) {
                Ok(ps) => Ok(LuaDesyncKind::Multidisorder(Multidisorder { positions: ps })),
                Err(e) => Err(e),
            }
        } else {
            Ok(LuaDesyncKind::Unknown(self.function))
        }
    }
}

} // verus!
