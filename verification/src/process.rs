use vstd::prelude::*;

use crate::argument::{self, Argument, NamedValue};
use crate::config::{self, NfqwsConfig};
use crate::text;
use crate::text::{parse_u32_radix, split_bytes, split_once_bytes, NEWLINE, NUL};

verus! {

/// A running nfqws2 process: its id and its command line as the kernel reports it, the
/// words separated (and usually ended) by `\0`.
#[derive(Debug)]
pub struct NfqwsProcess {
    pub pid: u32,
    pub cmdline: Vec<u8>,
}

/// The mathematical form of a process.
pub struct ProcessView {
    pub pid: u32,
    pub cmdline: Seq<u8>,
}

impl View for NfqwsProcess {
    type V = ProcessView;

    open spec fn view(&self) -> ProcessView {
        ProcessView { pid: self.pid, cmdline: self.cmdline@ }
    }
}

/// The command: the bytes before the first `\0`, where they are not empty.
pub open spec fn command_of(cmdline: Seq<u8>) -> Option<Seq<u8>> {
    let c = text::split_once(cmdline, NUL).0;
    if c.len() > 0 {
        Some(c)
    } else {
        None
    }
}

/// The command line without the one `\0` that ends it, where it ends with one.
pub open spec fn without_final_nul(cmdline: Seq<u8>) -> Seq<u8> {
    if cmdline.len() > 0 && cmdline.last() == NUL {
        cmdline.drop_last()
    } else {
        cmdline
    }
}

/// The arguments: the words after the command.
pub open spec fn args_of(cmdline: Seq<u8>) -> Seq<Seq<u8>> {
    text::split_all(without_final_nul(cmdline), NUL).drop_first()
}

/// `spec_parse_argument` as a function value.
pub open spec fn parse_step() -> spec_fn(Seq<u8>) -> Option<NamedValue> {
    |a: Seq<u8>| argument::spec_parse_argument(a)
}

/// The arguments that parse, parsed, in their order.
pub open spec fn parsed_args_of(cmdline: Seq<u8>) -> Seq<NamedValue> {
    args_of(cmdline).filter_map(parse_step())
}

/// The queue number of the first parsed `qnum` argument, where it has a value that is a
/// decimal `u16`.
pub open spec fn queue_number_of(cmdline: Seq<u8>) -> Option<u16> {
    match argument::first_named(parsed_args_of(cmdline), config::qnum_name()) {
        Some(a) => match a.value {
            Some(v) => config::queue_number_value(v),
            None => None,
        },
        None => None,
    }
}

impl NfqwsProcess {
    /// The command: the first word of the command line, unless it is empty.
    pub fn command(&self) -> (r: Option<&[u8]>)
        ensures
            text::opt_bytes(r) == command_of(self.cmdline@),
    {
        let (first, _) = split_once_bytes(self.cmdline.as_slice(), NUL);
        if first.len() > 0 {
            Some(first)
        } else {
            None
        }
    }

    /// The arguments: the words of the command line after the command, the `\0` that
    /// ends the line not counted as a separator.
    pub fn args(&self) -> (r: Vec<&[u8]>)
        ensures
            text::slices_view(r@) == args_of(self.cmdline@),
    {
        let line: &[u8] = self.cmdline.as_slice();
        let body: &[u8] = if line.len() > 0 && line[line.len() - 1] == NUL {
            vstd::slice::slice_subrange(line, 0, line.len() - 1)
        } else {
            line
        };
        assert(body@ =~= without_final_nul(self.cmdline@));
        let words = split_bytes(body, NUL);
        proof {
            text::lemma_split_all(body@, NUL);
        }
        let ghost all = text::split_all(body@, NUL);
        let mut out: Vec<&[u8]> = Vec::new();
        let mut i: usize = 1;
        while i < words.len()
            invariant
                1 <= i <= words@.len(),
                text::slices_view(words@) == all,
                text::slices_view(out@) == all.drop_first().take(i - 1),
            decreases words@.len() - i,
        {
            let ghost before = out@;
            out.push(words[i]);
            assert(text::slices_view(out@) =~= all.drop_first().take(i as int)) by {
                assert(text::slices_view(out@) =~= text::slices_view(before).push(words@[i as int]@));
            }
            i = i + 1;
        }
        assert(all.drop_first().take(all.len() - 1) =~= all.drop_first());
        out
    }

    /// The arguments that parse as `--name` or `--name=value`, in their order.
    pub fn parsed_args(&self) -> (r: Vec<Argument<'_>>)
        ensures
            argument::arguments_view(r@) == parsed_args_of(self.cmdline@),
    {
        let words = self.args();
        let ghost raw = args_of(self.cmdline@);
        let mut out: Vec<Argument<'_>> = Vec::new();
        let mut i: usize = 0;
        while i < words.len()
            invariant
                i <= words@.len(),
                text::slices_view(words@) == raw,
                argument::arguments_view(out@) == raw.take(i as int).filter_map(parse_step()),
            decreases words@.len() - i,
        {
            proof {
                raw.lemma_filter_map_take_succ(parse_step(), i as int);
            }
            assert(words@[i as int]@ == raw[i as int]);
            let ghost before = out@;
            if let Some(a) = argument::parse(words[i]) {
                out.push(a);
                assert(argument::arguments_view(out@) =~= argument::arguments_view(before).push(
                    a@,
                ));
            }
            i = i + 1;
        }
        assert(raw.take(raw.len() as int) =~= raw);
        out
    }

    /// The first parsed argument with the given name.
    pub fn find_arg(&self, name: &[u8]) -> (r: Option<Argument<'_>>)
        ensures
            match r {
                Some(a) => argument::first_named(parsed_args_of(self.cmdline@), name@) == Some(
                    a@,
                ),
                None => argument::first_named(parsed_args_of(self.cmdline@), name@) is None,
            },
    {
        let args = self.parsed_args();
        argument::find_first(&args, name)
    }

    /// Every parsed argument with the given name, in their order.
    pub fn find_args(&self, name: &[u8]) -> (r: Vec<Argument<'_>>)
        ensures
            argument::arguments_view(r@) == argument::named(parsed_args_of(self.cmdline@), name@),
    {
        let args = self.parsed_args();
        argument::find_all(&args, name)
    }

    /// The queue number: the value of the first `qnum` argument as a decimal `u16`;
    /// `None` where there is no such argument, it has no value, or the value does not read.
    pub fn queue_number(&self) -> (r: Option<u16>)
        ensures
            r == queue_number_of(self.cmdline@),
    {
        let key = config::qnum_key();
        match self.find_arg(key.as_slice()) {
            Some(a) => match a.value {
                Some(v) => config::parse_queue_number(v),
                None => None,
            },
            None => None,
        }
    }

    /// The configuration that the parsed arguments describe.
    pub fn config(&self) -> (r: NfqwsConfig<'_>)
        ensures
            r@ == config::spec_parse_config(parsed_args_of(self.cmdline@)),
    {
        NfqwsConfig::parse(self.parsed_args())
    }
}

/// The command is the line up to its first `\0` (or the whole line without one): a
/// nonempty prefix of the line without `\0`, followed in the line by a `\0` or by nothing;
/// there is none exactly when the line is empty or begins with `\0`.
pub proof fn lemma_command_is_first_word(cmdline: Seq<u8>)
    ensures
        command_of(cmdline) matches Some(x) ==> (x.len() > 0 && text::free_of(x, NUL) && x.len()
            <= cmdline.len() && cmdline.take(x.len() as int) == x && (x.len() == cmdline.len()
            || cmdline[x.len() as int] == NUL)),
        command_of(cmdline) is None <==> (cmdline.len() == 0 || cmdline[0] == NUL),
{
    text::lemma_first_index(cmdline, NUL);
    let k = text::first_index(cmdline, NUL) as int;
    if k == cmdline.len() {
        assert(cmdline.take(k) =~= cmdline);
    }
}

/// The word parses as an argument.
pub open spec fn parses() -> spec_fn(Seq<u8>) -> bool {
    |w: Seq<u8>| argument::spec_parse_argument(w) is Some
}

/// There is one parsed argument per word that parses, in their order, and each written out
/// again is that word.
pub proof fn lemma_parsed_args_one_per_word(cmdline: Seq<u8>)
    ensures
        parsed_args_of(cmdline).len() == args_of(cmdline).filter(parses()).len(),
        forall|k: int|
            0 <= k < parsed_args_of(cmdline).len() ==> argument::argument_text(
                #[trigger] parsed_args_of(cmdline)[k],
            ) == args_of(cmdline).filter(parses())[k],
{
    let words = args_of(cmdline);
    let g = |w: Seq<u8>| argument::spec_parse_argument(w)->0;
    assert forall|w: Seq<u8>| #[trigger] parse_step()(w) == if parses()(w) {
        Some(g(w))
    } else {
        None::<NamedValue>
    } by {}
    text::lemma_filter_map_is_filter(words, parse_step(), parses(), g);
    let sel = words.filter(parses());
    assert forall|k: int| 0 <= k < parsed_args_of(cmdline).len() implies argument::argument_text(
        #[trigger] parsed_args_of(cmdline)[k],
    ) == sel[k] by {
        words.lemma_filter_pred(parses(), k);
        argument::lemma_argument_parse_is_exact(sel[k]);
    }
}

/// The arguments of a command line, without the `\0` that ends it: there are as many as
/// that line holds `\0`s, none holds a `\0`, and the command followed by each argument
/// with a `\0` before it is the line again.
pub proof fn lemma_args_rebuild_line(cmdline: Seq<u8>)
    ensures
        args_of(cmdline).len() == text::count_of(without_final_nul(cmdline), NUL),
        forall|i: int|
            0 <= i < args_of(cmdline).len() ==> text::free_of(#[trigger] args_of(cmdline)[i], NUL),
        without_final_nul(cmdline) == without_final_nul(cmdline).take(
            text::first_index(without_final_nul(cmdline), NUL) as int,
        ) + text::prefixed(args_of(cmdline), NUL),
{
    let s = without_final_nul(cmdline);
    let pieces = text::split_all(s, NUL);
    text::lemma_split_all(s, NUL);
    text::lemma_count_join(pieces, NUL);
    text::lemma_join_prefixed(pieces, NUL);
    assert forall|i: int| 0 <= i < args_of(cmdline).len() implies text::free_of(
        #[trigger] args_of(cmdline)[i],
        NUL,
    ) by {
        assert(args_of(cmdline)[i] == pieces[i + 1]);
    }
    text::lemma_first_index(s, NUL);
    let k = text::first_index(s, NUL) as int;
    if k < s.len() {
        assert(pieces[0] == s.take(k));
    } else {
        assert(pieces[0] == s);
        assert(s.take(k) =~= s);
    }
}

/// A word of a command line parses to an argument of the given name.
pub open spec fn parses_with_name(word: Seq<u8>, name: Seq<u8>) -> bool {
    argument::spec_parse_argument(word) matches Some(a) && a.name == name
}

/// Over any words: the first parsed argument of a name is the parse of the first word that
/// parses with that name, and there is none exactly when no word does.
pub proof fn lemma_first_named_is_first_word(words: Seq<Seq<u8>>, name: Seq<u8>)
    ensures
        argument::first_named(words.filter_map(parse_step()), name) is None <==> forall|j: int|
            0 <= j < words.len() ==> !parses_with_name(#[trigger] words[j], name),
        argument::first_named(words.filter_map(parse_step()), name) is Some ==> exists|j: int|
            0 <= j < words.len() && parses_with_name(#[trigger] words[j], name)
                && argument::spec_parse_argument(words[j]) == argument::first_named(
                words.filter_map(parse_step()),
                name,
            ) && forall|i: int| 0 <= i < j ==> !parses_with_name(#[trigger] words[i], name),
    decreases words.len(),
{
    let f = parse_step();
    if words.len() == 0 {
        reveal_with_fuel(Seq::<_>::filter, 1);
        assert(words.filter_map(f) =~= Seq::<NamedValue>::empty());
        assert(argument::named(Seq::<NamedValue>::empty(), name).len() == 0);
    } else {
        let init = words.drop_last();
        let w = words.last();
        lemma_first_named_is_first_word(init, name);
        let tail: Seq<NamedValue> = match f(w) {
            Some(a) => seq![a],
            None => Seq::empty(),
        };
        assert(words.filter_map(f) == init.filter_map(f) + tail);
        Seq::filter_distributes_over_add(init.filter_map(f), tail, argument::has_name(name));
        let matched_tail = tail.filter(argument::has_name(name));
        assert(matched_tail.len() > 0 <==> parses_with_name(w, name)) by {
            reveal_with_fuel(Seq::<_>::filter, 2);
            if tail.len() == 1 {
                assert(tail.drop_last() =~= Seq::<NamedValue>::empty());
            }
        }
        assert(parses_with_name(w, name) ==> matched_tail[0] == argument::spec_parse_argument(
            w,
        )->0) by {
            reveal_with_fuel(Seq::<_>::filter, 2);
            if tail.len() == 1 {
                assert(tail.drop_last() =~= Seq::<NamedValue>::empty());
            }
        }
        let before = argument::named(init.filter_map(f), name);
        let all = argument::named(words.filter_map(f), name);
        assert(all == before + matched_tail);
        assert forall|j: int| 0 <= j < init.len() implies init[j] == words[j] by {}
        if before.len() > 0 {
            assert(all[0] == before[0]);
            let j = choose|j: int|
                0 <= j < init.len() && parses_with_name(#[trigger] init[j], name)
                    && argument::spec_parse_argument(init[j]) == argument::first_named(
                    init.filter_map(f),
                    name,
                ) && forall|i: int| 0 <= i < j ==> !parses_with_name(#[trigger] init[i], name);
            assert(words[j] == init[j]);
            assert forall|i: int| 0 <= i < j implies !parses_with_name(#[trigger] words[i], name) by {
                assert(words[i] == init[i]);
            }
        } else {
            assert forall|j: int| 0 <= j < init.len() implies !parses_with_name(
                #[trigger] words[j],
                name,
            ) by {
                assert(words[j] == init[j]);
            }
            if parses_with_name(w, name) {
                let j = words.len() - 1;
                assert(all[0] == matched_tail[0]);
                assert(parses_with_name(words[j], name));
            } else {
                assert(all.len() == 0);
                assert forall|j: int| 0 <= j < words.len() implies !parses_with_name(
                    #[trigger] words[j],
                    name,
                ) by {
                    if j < init.len() {
                        assert(words[j] == init[j]);
                    }
                }
            }
        }
    }
}

/// `find_arg` gives the parse of the first word of the command line that parses with the
/// name sought, and nothing exactly when no word does.
pub proof fn lemma_find_arg_is_first_word(cmdline: Seq<u8>, name: Seq<u8>)
    ensures
        argument::first_named(parsed_args_of(cmdline), name) is None <==> forall|j: int|
            0 <= j < args_of(cmdline).len() ==> !parses_with_name(#[trigger] args_of(cmdline)[j], name),
        argument::first_named(parsed_args_of(cmdline), name) is Some ==> exists|j: int|
            0 <= j < args_of(cmdline).len() && parses_with_name(#[trigger] args_of(cmdline)[j], name)
                && argument::spec_parse_argument(args_of(cmdline)[j]) == argument::first_named(
                parsed_args_of(cmdline),
                name,
            ) && forall|i: int|
                0 <= i < j ==> !parses_with_name(#[trigger] args_of(cmdline)[i], name),
{
    lemma_first_named_is_first_word(args_of(cmdline), name);
}

/// The word at `j` is the first that parses as an argument of the name.
pub open spec fn is_first_word_named(words: Seq<Seq<u8>>, name: Seq<u8>, j: int) -> bool {
    &&& 0 <= j < words.len()
    &&& parses_with_name(words[j], name)
    &&& forall|i: int| 0 <= i < j ==> !parses_with_name(#[trigger] words[i], name)
}

/// The queue number is read from the first word of the command line that parses as a
/// `qnum` argument, wherever it stands: the decimal `u16` of its value, and none where it
/// has no value, the value does not read, or no word is such an argument.
pub proof fn lemma_queue_number_first_qnum(cmdline: Seq<u8>)
    ensures
        forall|j: int| #[trigger]
            is_first_word_named(args_of(cmdline), config::qnum_name(), j) ==> (match argument::spec_parse_argument(
                args_of(cmdline)[j],
            )->0.value {
                Some(v) => match text::parse_unsigned(v, 10, u16::MAX as nat) {
                    Some(n) => queue_number_of(cmdline) == Some(n as u16),
                    None => queue_number_of(cmdline) is None,
                },
                None => queue_number_of(cmdline) is None,
            }),
        (forall|j: int|
            0 <= j < args_of(cmdline).len() ==> !parses_with_name(
                #[trigger] args_of(cmdline)[j],
                config::qnum_name(),
            )) ==> queue_number_of(cmdline) is None,
{
    let words = args_of(cmdline);
    let name = config::qnum_name();
    lemma_first_named_is_first_word(words, name);
    assert forall|j: int| #[trigger] is_first_word_named(words, name, j) implies argument::first_named(
        parsed_args_of(cmdline),
        name,
    ) == argument::spec_parse_argument(words[j]) by {
        let k = choose|k: int|
            0 <= k < words.len() && parses_with_name(#[trigger] words[k], name)
                && argument::spec_parse_argument(words[k]) == argument::first_named(
                words.filter_map(parse_step()),
                name,
            ) && forall|i: int| 0 <= i < k ==> !parses_with_name(#[trigger] words[i], name);
        if k < j {
            assert(!parses_with_name(words[k], name));
        }
        if j < k {
            assert(!parses_with_name(words[j], name));
        }
    }
}

/// The first argument that `find_arg` finds is the first of those that `find_args`
/// finds, and there is one exactly when `find_args` finds any.
pub proof fn lemma_find_arg_is_first_found(cmdline: Seq<u8>, name: Seq<u8>)
    ensures
        argument::first_named(parsed_args_of(cmdline), name) is Some <==> argument::named(
            parsed_args_of(cmdline),
            name,
        ).len() > 0,
        argument::first_named(parsed_args_of(cmdline), name) is Some ==> argument::first_named(
            parsed_args_of(cmdline),
            name,
        )->0 == argument::named(parsed_args_of(cmdline), name)[0],
{
}

/// Every argument that `find_args` finds has the name sought.
pub proof fn lemma_found_args_have_name(cmdline: Seq<u8>, name: Seq<u8>)
    ensures
        forall|i: int|
            0 <= i < argument::named(parsed_args_of(cmdline), name).len() ==> (#[trigger] argument::named(
                parsed_args_of(cmdline),
                name,
            )[i]).name == name,
{
    let items = parsed_args_of(cmdline);
    assert forall|i: int| 0 <= i < argument::named(items, name).len() implies (
    #[trigger] argument::named(items, name)[i]).name == name by {
        items.lemma_filter_pred(argument::has_name(name), i);
    }
}

/// The queue number of a process is the queue number of its configuration.
pub proof fn lemma_queue_number_matches_config(cmdline: Seq<u8>)
    ensures
        queue_number_of(cmdline) == config::spec_parse_config(parsed_args_of(cmdline)).queue_number,
{
}

/// `nfqws2`
pub open spec fn nfqws2_name() -> Seq<u8> {
    seq![110u8, 102u8, 113u8, 119u8, 115u8, 50u8]
}

/// The name under which the kernel lists the nfqws2 process.
pub fn nfqws2_process_name() -> (r: Vec<u8>)
    ensures
        r@ == nfqws2_name(),
{
    let r: Vec<u8> = vec![110u8, 102u8, 113u8, 119u8, 115u8, 50u8];
    assert(r@ =~= nfqws2_name());
    r
}

/// The process id that a directory entry of the process table names: its name as a
/// decimal `u32`; other entries name none.
pub fn pid_of_entry(entry_name: &[u8]) -> (r: Option<u32>)
    ensures
        match r {
            Some(n) => text::parse_unsigned(entry_name@, 10, u32::MAX as nat) == Some(n as nat),
            None => text::parse_unsigned(entry_name@, 10, u32::MAX as nat) is None,
        },
{
    parse_u32_radix(entry_name, 10)
}

/// What reading a process's name from the process table gave.
pub enum CommRead<'b> {
    /// The name as read.
    Text(&'b [u8]),
    /// The process went away before it was read.
    Missing,
    /// Another failure to read it.
    Failed,
}

/// What a scan of the process table does after reading one process's name.
#[derive(Debug, PartialEq, Eq, Clone, Copy)]
pub enum ScanStep {
    /// Go on to the next entry.
    Skip,
    /// The process sought has this id.
    Found(u32),
    /// Stop, with the failure to read.
    Fail,
}

/// The mathematical form of a `CommRead`.
pub enum CommView {
    Text(Seq<u8>),
    Missing,
    Failed,
}

/// The view of what a read gave.
pub open spec fn comm_view(comm: CommRead) -> CommView {
    match comm {
        CommRead::Text(t) => CommView::Text(t@),
        CommRead::Missing => CommView::Missing,
        CommRead::Failed => CommView::Failed,
    }
}

/// The step that a process's name calls for: its id where the name, without the
/// newlines at its end, is the one sought; the next entry where it is another name or
/// the process went away; a failure where reading failed otherwise.
pub open spec fn step_of(pid: u32, comm: CommView, process_name: Seq<u8>) -> ScanStep {
    match comm {
        CommView::Text(t) => if text::trim_end(t, NEWLINE) == process_name {
            ScanStep::Found(pid)
        } else {
            ScanStep::Skip
        },
        CommView::Missing => ScanStep::Skip,
        CommView::Failed => ScanStep::Fail,
    }
}

/// The step that an entry of the process table calls for: the next entry where its name
/// is not a process id; otherwise the step that its process's name calls for.
pub open spec fn entry_step(entry_name: Seq<u8>, comm: CommView, process_name: Seq<u8>) -> ScanStep {
    match text::parse_unsigned(entry_name, 10, u32::MAX as nat) {
        Some(pid) => step_of(pid as u32, comm, process_name),
        None => ScanStep::Skip,
    }
}

/// The outcome of a scan of the entries, each with what reading its process's name gave:
/// the first step that is not `Skip`, or `Skip` where every entry is passed over (the
/// process is not running).
pub open spec fn scan_outcome(entries: Seq<(Seq<u8>, CommView)>, process_name: Seq<u8>) -> ScanStep
    decreases entries.len(),
{
    if entries.len() == 0 {
        ScanStep::Skip
    } else {
        let s = entry_step(entries[0].0, entries[0].1, process_name);
        if s is Skip {
            scan_outcome(entries.drop_first(), process_name)
        } else {
            s
        }
    }
}

/// A scan finds nothing exactly when every entry is passed over; otherwise it stops at
/// the first entry whose process has the name sought or whose name could not be read,
/// with that entry's step, every earlier entry passed over.
pub proof fn lemma_scan_stops_at_first(entries: Seq<(Seq<u8>, CommView)>, process_name: Seq<u8>)
    ensures
        scan_outcome(entries, process_name) is Skip <==> forall|j: int|
            0 <= j < entries.len() ==> #[trigger] entry_step(entries[j].0, entries[j].1, process_name) is Skip,
        !(scan_outcome(entries, process_name) is Skip) ==> exists|i: int|
            0 <= i < entries.len() && #[trigger] entry_step(entries[i].0, entries[i].1, process_name)
                == scan_outcome(entries, process_name) && forall|j: int|
                0 <= j < i ==> #[trigger] entry_step(entries[j].0, entries[j].1, process_name) is Skip,
    decreases entries.len(),
{
    if entries.len() > 0 {
        let rest = entries.drop_first();
        lemma_scan_stops_at_first(rest, process_name);
        assert forall|j: int| 0 <= j < rest.len() implies rest[j] == entries[j + 1] by {}
        let s = entry_step(entries[0].0, entries[0].1, process_name);
        if s is Skip {
            if scan_outcome(rest, process_name) is Skip {
                assert forall|j: int| 0 <= j < entries.len() implies #[trigger] entry_step(
                    entries[j].0,
                    entries[j].1,
                    process_name,
                ) is Skip by {
                    if j > 0 {
                        assert(entries[j] == rest[j - 1]);
                    }
                }
            } else {
                let i = choose|i: int|
                    0 <= i < rest.len() && #[trigger] entry_step(rest[i].0, rest[i].1, process_name)
                        == scan_outcome(rest, process_name) && forall|j: int|
                        0 <= j < i ==> #[trigger] entry_step(rest[j].0, rest[j].1, process_name) is Skip;
                assert(entries[i + 1] == rest[i]);
                assert forall|j: int| 0 <= j < i + 1 implies #[trigger] entry_step(
                    entries[j].0,
                    entries[j].1,
                    process_name,
                ) is Skip by {
                    if j > 0 {
                        assert(entries[j] == rest[j - 1]);
                    }
                }
                assert(entry_step(entries[i + 1].0, entries[i + 1].1, process_name) == scan_outcome(
                    entries,
                    process_name,
                ));
            }
        } else {
            assert(entry_step(entries[0].0, entries[0].1, process_name) == scan_outcome(
                entries,
                process_name,
            ));
        }
    }
}

/// A process's name is taken for the one sought exactly when it is that name followed by
/// nothing but newlines (the name not itself ending in one), and then with the process's
/// own id; any other name is passed over, a vanished process is passed over, and another
/// failure to read stops the scan.
pub proof fn lemma_step_matches_exactly(pid: u32, t: Seq<u8>, process_name: Seq<u8>)
    ensures
        step_of(pid, CommView::Text(t), process_name) == ScanStep::Found(pid) || step_of(
            pid,
            CommView::Text(t),
            process_name,
        ) == ScanStep::Skip,
        step_of(pid, CommView::Text(t), process_name) == ScanStep::Found(pid) <==> (
        process_name.len() <= t.len() && t.take(process_name.len() as int) == process_name
            && text::all_equal(t.skip(process_name.len() as int), NEWLINE) && (process_name.len()
            == 0 || process_name.last() != NEWLINE)),
        step_of(pid, CommView::Missing, process_name) == ScanStep::Skip,
        step_of(pid, CommView::Failed, process_name) == ScanStep::Fail,
{
    text::lemma_trim_end(t, NEWLINE, process_name);
}

/// The step that a process's name calls for, as `step_of` says.
pub fn scan_entry(pid: u32, comm: CommRead, process_name: &[u8]) -> (r: ScanStep)
    ensures
        r == step_of(pid, comm_view(comm), process_name@),
{
    match comm {
        CommRead::Text(t) => {
            let name = text::trim_end_bytes(t, NEWLINE);
            if text::bytes_eq(name, process_name) {
                ScanStep::Found(pid)
            } else {
                ScanStep::Skip
            }
        },
        CommRead::Missing => ScanStep::Skip,
        CommRead::Failed => ScanStep::Fail,
    }
}

} // verus!
