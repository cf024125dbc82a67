use vstd::prelude::*;

use crate::text;
use crate::text::{bytes_eq, split_once_bytes, DASH, EQUALS};

verus! {

/// A name and an optional value, as bytes: the mathematical form of a command-line
/// argument and of a parameter of a Lua desync.
pub struct NamedValue {
    pub name: Seq<u8>,
    pub value: Option<Seq<u8>>,
}

/// One `--name` or `--name=value` argument of a command line.
#[derive(Debug, PartialEq, Eq, Clone, Copy)]
pub struct Argument<'a> {
    pub name: &'a [u8],
    pub value: Option<&'a [u8]>,
}

impl<'a> View for Argument<'a> {
    type V = NamedValue;

    open spec fn view(&self) -> NamedValue {
        NamedValue { name: self.name@, value: text::opt_bytes(self.value) }
    }
}

/// A name and a value from `s` split at its first `=`.
pub open spec fn name_value(s: Seq<u8>) -> NamedValue {
    NamedValue { name: text::split_once(s, EQUALS).0, value: text::split_once(s, EQUALS).1 }
}

/// What `parse` gives for `arg`: nothing unless it begins with `--`; otherwise the rest
/// split at its first `=`, where the name before it is not empty.
pub open spec fn spec_parse_argument(arg: Seq<u8>) -> Option<NamedValue> {
    if arg.len() >= 2 && arg[0] == DASH && arg[1] == DASH {
        let nv = name_value(arg.skip(2));
        if nv.name.len() == 0 {
            None
        } else {
            Some(nv)
        }
    } else {
        None
    }
}

/// The views of a sequence of arguments.
pub open spec fn arguments_view(args: Seq<Argument>) -> Seq<NamedValue> {
    args.map_values(|a: Argument| a@)
}

/// The test that a name and value has the given name.
pub open spec fn has_name(name: Seq<u8>) -> spec_fn(NamedValue) -> bool {
    |a: NamedValue| a.name == name
}

/// The items with the given name, in their order.
pub open spec fn named(items: Seq<NamedValue>, name: Seq<u8>) -> Seq<NamedValue> {
    items.filter(has_name(name))
}

/// The first item with the given name, where there is one.
pub open spec fn first_named(items: Seq<NamedValue>, name: Seq<u8>) -> Option<NamedValue> {
    let m = named(items, name);
    if m.len() > 0 {
        Some(m[0])
    } else {
        None
    }
}

/// Looking at one more item adds it to the matches where its name is the one sought.
pub proof fn lemma_named_step(items: Seq<NamedValue>, name: Seq<u8>, i: int)
    requires
        0 <= i < items.len(),
    ensures
        named(items.take(i + 1), name) == (if items[i].name == name {
            named(items.take(i), name).push(items[i])
        } else {
            named(items.take(i), name)
        }),
{
    reveal_with_fuel(Seq::<_>::filter, 1);
    assert(items.take(i + 1).drop_last() =~= items.take(i));
}

/// Where no item before `i` has the name and item `i` has it, item `i` is the first match.
pub proof fn lemma_first_named_at(items: Seq<NamedValue>, name: Seq<u8>, i: int)
    requires
        0 <= i < items.len(),
        named(items.take(i), name).len() == 0,
        items[i].name == name,
    ensures
        first_named(items, name) == Some(items[i]),
{
    lemma_named_step(items, name, i);
    assert(items =~= items.take(i + 1) + items.skip(i + 1));
    Seq::filter_distributes_over_add(items.take(i + 1), items.skip(i + 1), has_name(name));
}

/// Where no item has the name, there is no first match.
pub proof fn lemma_first_named_none(items: Seq<NamedValue>, name: Seq<u8>)
    requires
        named(items.take(items.len() as int), name).len() == 0,
    ensures
        first_named(items, name) is None,
{
    assert(items.take(items.len() as int) =~= items);
}

/// Item `i` has the name, and no item before it does.
pub open spec fn is_first_with_name(items: Seq<NamedValue>, name: Seq<u8>, i: int) -> bool {
    &&& 0 <= i < items.len()
    &&& items[i].name == name
    &&& forall|j: int| 0 <= j < i ==> items[j].name != name
}

/// No item has the name.
pub open spec fn none_with_name(items: Seq<NamedValue>, name: Seq<u8>) -> bool {
    forall|j: int| 0 <= j < items.len() ==> items[j].name != name
}

/// Where no item before `i` has the name, nothing before `i` matches.
proof fn lemma_named_none_before(items: Seq<NamedValue>, name: Seq<u8>, i: int)
    requires
        0 <= i <= items.len(),
        forall|j: int| 0 <= j < i ==> items[j].name != name,
    ensures
        named(items.take(i), name).len() == 0,
    decreases i,
{
    if i == 0 {
        reveal_with_fuel(Seq::<_>::filter, 1);
        assert(items.take(0) =~= Seq::<NamedValue>::empty());
    } else {
        lemma_named_none_before(items, name, i - 1);
        lemma_named_step(items, name, i - 1);
    }
}

/// The first match is the item with the name that no earlier item has, wherever it
/// stands; there is none exactly when no item has the name.
pub proof fn lemma_first_named_by_index(items: Seq<NamedValue>, name: Seq<u8>)
    ensures
        forall|i: int| #[trigger] is_first_with_name(items, name, i) ==> first_named(items, name)
            == Some(items[i]),
        none_with_name(items, name) <==> first_named(items, name) is None,
        first_named(items, name) is Some ==> exists|i: int|
            #[trigger] is_first_with_name(items, name, i) && first_named(items, name) == Some(
                items[i],
            ),
{
    assert forall|i: int| #[trigger] is_first_with_name(items, name, i) implies first_named(
        items,
        name,
    ) == Some(items[i]) by {
        lemma_named_none_before(items, name, i);
        lemma_first_named_at(items, name, i);
    }
    if none_with_name(items, name) {
        lemma_named_none_before(items, name, items.len() as int);
        lemma_first_named_none(items, name);
    } else {
        let k = choose|k: int| 0 <= k < items.len() && items[k].name == name;
        let i = first_with_name_at_or_before(items, name, k);
        assert(is_first_with_name(items, name, i));
    }
}

/// The position of the first item with the name, given one at `k`.
proof fn first_with_name_at_or_before(items: Seq<NamedValue>, name: Seq<u8>, k: int) -> (i: int)
    requires
        0 <= k < items.len(),
        items[k].name == name,
    ensures
        is_first_with_name(items, name, i),
    decreases k,
{
    if exists|j: int| 0 <= j < k && items[j].name == name {
        let j = choose|j: int| 0 <= j < k && items[j].name == name;
        first_with_name_at_or_before(items, name, j)
    } else {
        k
    }
}

/// Matching is taken piece by piece: the matches of two runs of items put together are the
/// matches of the first followed by those of the second, and one item matches exactly when
/// it has the name.
pub proof fn lemma_named_pieces(a: Seq<NamedValue>, b: Seq<NamedValue>, x: NamedValue, name: Seq<u8>)
    ensures
        named(a + b, name) == named(a, name) + named(b, name),
        named(seq![x], name) == (if x.name == name {
            seq![x]
        } else {
            Seq::<NamedValue>::empty()
        }),
{
    Seq::filter_distributes_over_add(a, b, has_name(name));
    reveal_with_fuel(Seq::<_>::filter, 2);
    assert(seq![x].drop_last() =~= Seq::<NamedValue>::empty());
}

/// The text of a name and value: the name, then `=` and the value where there is one.
pub open spec fn name_value_text(nv: NamedValue) -> Seq<u8> {
    match nv.value {
        Some(v) => nv.name + seq![EQUALS] + v,
        None => nv.name,
    }
}

/// The text of an argument: `--` before its name and value.
pub open spec fn argument_text(nv: NamedValue) -> Seq<u8> {
    seq![DASH, DASH] + name_value_text(nv)
}

/// Splitting a text at its first `=` and writing the two parts out again gives the
/// text back, and the name holds no `=`.
pub proof fn lemma_name_value_text(s: Seq<u8>)
    ensures
        name_value_text(name_value(s)) == s,
        text::free_of(name_value(s).name, EQUALS),
{
    text::lemma_first_index(s, EQUALS);
    let i = text::first_index(s, EQUALS) as int;
    if i < s.len() {
        assert(s =~= s.take(i) + seq![EQUALS] + s.skip(i + 1));
    }
}

/// A name without `=` and any value, written out and split again, come back unchanged.
pub proof fn lemma_name_value_of_text(nv: NamedValue)
    requires
        text::free_of(nv.name, EQUALS),
    ensures
        name_value(name_value_text(nv)) == nv,
{
    let s = name_value_text(nv);
    text::lemma_first_index(s, EQUALS);
    let n = nv.name.len() as int;
    assert(text::is_first_index(s, EQUALS, n)) by {
        assert forall|j: int| 0 <= j < n implies s[j] != EQUALS by {
            assert(s[j] == nv.name[j]);
        }
    }
    match nv.value {
        Some(v) => {
            assert(s.take(n) =~= nv.name);
            assert(s.skip(n + 1) =~= v);
        },
        None => {},
    }
}

/// An argument that parses is exactly `--`, its name and, where it has a value, `=`
/// and the value: everything after the first `=`, further `=`s and an empty value
/// included, is kept as the value.
pub proof fn lemma_argument_parse_is_exact(arg: Seq<u8>)
    requires
        spec_parse_argument(arg) is Some,
    ensures
        argument_text(spec_parse_argument(arg)->0) == arg,
        text::free_of(spec_parse_argument(arg)->0.name, EQUALS),
        spec_parse_argument(arg)->0.name.len() > 0,
{
    lemma_name_value_text(arg.skip(2));
    assert(arg =~= seq![DASH, DASH] + arg.skip(2));
}

/// Every nonempty name without `=`, with or without a value, is given back by parsing
/// its argument text.
pub proof fn lemma_argument_text_parses(nv: NamedValue)
    requires
        nv.name.len() > 0,
        text::free_of(nv.name, EQUALS),
    ensures
        spec_parse_argument(argument_text(nv)) == Some(nv),
{
    let arg = argument_text(nv);
    assert(arg.skip(2) =~= name_value_text(nv));
    lemma_name_value_of_text(nv);
}

/// Splits a `--name` or `--name=value` argument into its name and value. Gives `None`
/// when the argument does not begin with `--` or its name is empty; the value is
/// everything after the first `=`.
pub fn parse(arg: &[u8]) -> (r: Option<Argument<'_>>)
    ensures
        match r {
            Some(a) => spec_parse_argument(arg@) == Some(a@),
            None => spec_parse_argument(arg@) is None,
        },
{
    if arg.len() < 2 || arg[0] != DASH || arg[1] != DASH {
        return None;
    }
    let rest = vstd::slice::slice_subrange(arg, 2, arg.len());
    assert(rest@ =~= arg@.skip(2));
    let (name, value) = split_once_bytes(rest, EQUALS);
    if name.len() == 0 {
        return None;
    }
    Some(Argument { name, value })
}

/// The first argument with the given name, where there is one.
pub fn find_first<'a>(args: &Vec<Argument<'a>>, name: &[u8]) -> (r: Option<Argument<'a>>)
    ensures
        match r {
            Some(a) => first_named(arguments_view(args@), name@) == Some(a@),
            None => first_named(arguments_view(args@), name@) is None,
        },
{
    let ghost items = arguments_view(args@);
    let mut i: usize = 0;
    while i < args.len()
        invariant
            i <= args@.len(),
            items == arguments_view(args@),
            named(items.take(i as int), name@).len() == 0,
        decreases args@.len() - i,
    {
        proof {
            lemma_named_step(items, name@, i as int);
        }
        if bytes_eq(args[i].name, name) {
            proof {
                lemma_first_named_at(items, name@, i as int);
            }
            return Some(args[i]);
        }
        i = i + 1;
    }
    proof {
        lemma_first_named_none(items, name@);
    }
    None
}

/// The arguments with the given name, in their order.
pub fn find_all<'a>(args: &Vec<Argument<'a>>, name: &[u8]) -> (r: Vec<Argument<'a>>)
    ensures
        arguments_view(r@) == named(arguments_view(args@), name@),
{
    let ghost items = arguments_view(args@);
    let mut out: Vec<Argument<'a>> = Vec::new();
    let mut i: usize = 0;
    while i < args.len()
        invariant
            i <= args@.len(),
            items == arguments_view(args@),
            arguments_view(out@) == named(items.take(i as int), name@),
        decreases args@.len() - i,
    {
        proof {
            lemma_named_step(items, name@, i as int);
        }
        if bytes_eq(args[i].name, name) {
            let ghost before = out@;
            out.push(args[i]);
            assert(arguments_view(out@) =~= arguments_view(before).push(items[i as int]));
        }
        i = i + 1;
    }
    assert(items.take(items.len() as int) =~= items);
    out
}

} // verus!
