//! The developer console: a capped message log, a command registry, command
//! history with up/down navigation, prefix suggestions and the built-in
//! commands (`help`, `fps`, `quit`/`exit`, `cls`, `echo`, `clear`, `test`,
//! `version`).
use std::collections::VecDeque;
use vstd::prelude::*;
use crate::text::{
    chars_of, pop_char,
    push_char, split_whitespace, tail_strings, words,
    pair_views, sort_pairs_by_first, sorted_by_first,
    concat, lemma_sorted_text_unique, lemma_text_le_total_ordering, owned, sort_strings,
    spec_to_lowercase, starts_with, str_eq, text_le, to_lowercase, trim, trimmed, views,
};

verus! {

/// The most messages the console keeps; older ones are dropped first.
pub const MAX_MESSAGES: usize = 500;

/// The most history entries the console keeps; older ones are dropped first.
pub const MAX_HISTORY: usize = 50;

/// A console command supplied by the game or the editor.
///
/// `execute` returns the lines the command prints, in order.
pub trait ConsoleCommand {
    fn name(&self) -> String;

    fn description(&self) -> String;

    fn execute(&mut self, args: &Vec<String>) -> Vec<String>;

    fn detailed_help(&self) -> Vec<String>;
}

/// The commands every console starts with.
#[derive(Clone, Copy, PartialEq, Eq, Structural, Debug)]
pub enum BuiltinCommand {
    Echo,
    Clear,
    Test,
    Version,
}

pub open spec fn builtin_name(b: BuiltinCommand) -> Seq<char> {
    match b {
        BuiltinCommand::Echo => "echo"@,
        BuiltinCommand::Clear => "clear"@,
        BuiltinCommand::Test => "test"@,
        BuiltinCommand::Version => "version"@,
    }
}

pub open spec fn builtin_description(b: BuiltinCommand) -> Seq<char> {
    match b {
        BuiltinCommand::Echo => "Print text to the console"@,
        BuiltinCommand::Clear => "Clear console output"@,
        BuiltinCommand::Test => "Run a test to verify the console works"@,
        BuiltinCommand::Version => "Show engine version info"@,
    }
}

pub open spec fn builtin_help(b: BuiltinCommand) -> Seq<Seq<char>> {
    match b {
        BuiltinCommand::Echo => seq![
            "echo <text> - Print text to the console."@,
            "Example: echo Hello world"@,
        ],
        BuiltinCommand::Clear => seq!["clear / cls - Clear all messages from the console."@],
        BuiltinCommand::Test => seq!["test - Run a test to verify the console works."@],
        BuiltinCommand::Version => seq!["version / ver - Show engine version info."@],
    }
}

/// `words` joined with single spaces.
pub open spec fn join_spaces(words: Seq<Seq<char>>) -> Seq<char>
    decreases words.len(),
{
    if words.len() == 0 {
        Seq::empty()
    } else if words.len() == 1 {
        words[0]
    } else {
        join_spaces(words.drop_last()) + " "@ + words.last()
    }
}

/// What a built-in command prints for the given arguments.
pub open spec fn builtin_output(b: BuiltinCommand, args: Seq<Seq<char>>) -> Seq<Seq<char>> {
    match b {
        BuiltinCommand::Echo => seq![join_spaces(args)],
        BuiltinCommand::Clear => seq!["Console cleared."@],
        BuiltinCommand::Test => seq!["Test command executed successfully!"@],
        BuiltinCommand::Version => seq!["Runa Engine v0.5.1-alpha.1"@],
    }
}

pub fn join_with_spaces(words: &Vec<String>) -> (r: String)
    ensures
        r@ == join_spaces(views(words@)),
{
    let ghost ws = views(words@);
    let mut out = String::new();
    let mut i: usize = 0;
    while i < words.len()
        invariant
            i <= words.len(),
            ws == views(words@),
            out@ == join_spaces(ws.subrange(0, i as int)),
        decreases words.len() - i,
    {
        proof {
            reveal_strlit(" ");
            let pre = ws.subrange(0, i as int);
            let post = ws.subrange(0, i + 1);
            assert(post.drop_last() =~= pre);
            assert(post.last() == words@[i as int]@);
        }
        if i == 0 {
            out = owned(words[i].as_str());
            assert(ws.subrange(0, 1).len() == 1);
        } else {
            let with_space = concat(out.as_str(), " ");
            out = concat(with_space.as_str(), words[i].as_str());
        }
        i = i + 1;
    }
    assert(ws.subrange(0, words.len() as int) =~= ws);
    out
}

impl BuiltinCommand {
    pub fn name(&self) -> (r: String)
        ensures
            r@ == builtin_name(*self),
    {
        match self {
            BuiltinCommand::Echo => owned("echo"),
            BuiltinCommand::Clear => owned("clear"),
            BuiltinCommand::Test => owned("test"),
            BuiltinCommand::Version => owned("version"),
        }
    }

    pub fn description(&self) -> (r: String)
        ensures
            r@ == builtin_description(*self),
    {
        match self {
            BuiltinCommand::Echo => owned("Print text to the console"),
            BuiltinCommand::Clear => owned("Clear console output"),
            BuiltinCommand::Test => owned("Run a test to verify the console works"),
            BuiltinCommand::Version => owned("Show engine version info"),
        }
    }

    pub fn detailed_help(&self) -> (r: Vec<String>)
        ensures
            views(r@) == builtin_help(*self),
    {
        let mut out: Vec<String> = Vec::new();
        match self {
            BuiltinCommand::Echo => {
                out.push(owned("echo <text> - Print text to the console."));
                out.push(owned("Example: echo Hello world"));
            },
            BuiltinCommand::Clear => {
                out.push(owned("clear / cls - Clear all messages from the console."));
            },
            BuiltinCommand::Test => {
                out.push(owned("test - Run a test to verify the console works."));
            },
            BuiltinCommand::Version => {
                out.push(owned("version / ver - Show engine version info."));
            },
        }
        assert(views(out@) =~= builtin_help(*self));
        out
    }

    pub fn execute(&mut self, args: &Vec<String>) -> (r: Vec<String>)
        ensures
            views(r@) == builtin_output(*old(self), views(args@)),
            *final(self) == *old(self),
    {
        let mut out: Vec<String> = Vec::new();
        match self {
            BuiltinCommand::Echo => {
                out.push(join_with_spaces(args));
            },
            BuiltinCommand::Clear => {
                out.push(owned("Console cleared."));
            },
            BuiltinCommand::Test => {
                out.push(owned("Test command executed successfully!"));
            },
            BuiltinCommand::Version => {
                out.push(owned("Runa Engine v0.5.1-alpha.1"));
            },
        }
        assert(views(out@) =~= builtin_output(*self, views(args@)));
        out
    }
}

/// A registered command: one of the built-ins, or one supplied by the user.
pub enum CommandEntry<C> {
    Builtin(BuiltinCommand),
    Custom(C),
}

impl<C: ConsoleCommand> CommandEntry<C> {
    pub fn name(&self) -> (r: String)
        ensures
            *self matches CommandEntry::Builtin(b) ==> r@ == builtin_name(b),
            *self matches CommandEntry::Custom(c) ==> call_ensures(C::name, (&c,), r),
    {
        match self {
            CommandEntry::Builtin(b) => b.name(),
            CommandEntry::Custom(c) => {
                let name = C::name;
                name(c)
            },
        }
    }

    pub fn description(&self) -> (r: String)
        ensures
            *self matches CommandEntry::Builtin(b) ==> r@ == builtin_description(b),
            *self matches CommandEntry::Custom(c) ==> call_ensures(C::description, (&c,), r),
    {
        match self {
            CommandEntry::Builtin(b) => b.description(),
            CommandEntry::Custom(c) => {
                let description = C::description;
                description(c)
            },
        }
    }

    pub fn detailed_help(&self) -> (r: Vec<String>)
        ensures
            *self matches CommandEntry::Builtin(b) ==> views(r@) == builtin_help(b),
            *self matches CommandEntry::Custom(c) ==> call_ensures(C::detailed_help, (&c,), r),
    {
        match self {
            CommandEntry::Builtin(b) => b.detailed_help(),
            CommandEntry::Custom(c) => {
                let help = C::detailed_help;
                help(c)
            },
        }
    }

    pub fn execute(&mut self, args: &Vec<String>) -> (r: Vec<String>)
        ensures
            *old(self) matches CommandEntry::Builtin(b) ==> (views(r@) == builtin_output(b, views(args@))
                && *final(self) == *old(self)),
            *old(self) is Custom ==> *final(self) is Custom,
    {
        match self {
            CommandEntry::Builtin(b) => b.execute(args),
            CommandEntry::Custom(c) => c.execute(args),
        }
    }
}

/// `msgs` with `m` appended, dropping the oldest message when the log would
/// hold more than `cap`.
pub open spec fn push_capped(msgs: Seq<Seq<char>>, m: Seq<char>, cap: nat) -> Seq<Seq<char>> {
    let s = msgs.push(m);
    if s.len() > cap {
        s.drop_first()
    } else {
        s
    }
}

/// `msgs` with each of `ms` appended in turn by `push_capped`.
pub open spec fn push_all_capped(msgs: Seq<Seq<char>>, ms: Seq<Seq<char>>, cap: nat) -> Seq<Seq<char>>
    decreases ms.len(),
{
    if ms.len() == 0 {
        msgs
    } else {
        push_capped(push_all_capped(msgs, ms.drop_last(), cap), ms.last(), cap)
    }
}


/// The log keeps the newest messages: appending `ms` one by one to a log of
/// at most `cap` messages, dropping the oldest when full, leaves the last
/// `cap` messages of the log followed by `ms`.
pub proof fn lemma_push_all_capped_keeps_newest(msgs: Seq<Seq<char>>, ms: Seq<Seq<char>>, cap: nat)
    requires
        cap > 0,
        msgs.len() <= cap,
    ensures
        push_all_capped(msgs, ms, cap) == (if msgs.len() + ms.len() <= cap {
            msgs + ms
        } else {
            (msgs + ms).subrange(msgs.len() + ms.len() - cap, msgs.len() + ms.len() as int)
        }),
    decreases ms.len(),
{
    if ms.len() > 0 {
        let init = ms.drop_last();
        lemma_push_all_capped_keeps_newest(msgs, init, cap);
        let prev = push_all_capped(msgs, init, cap);
        let all = msgs + ms;
        assert((msgs + init).push(ms.last()) =~= all);
        if msgs.len() + ms.len() <= cap {
            assert(prev == msgs + init);
        } else if msgs.len() + init.len() <= cap {
            assert(prev == msgs + init);
            assert(prev.push(ms.last()).drop_first() =~= all.subrange(1, all.len() as int));
        } else {
            let n = msgs.len() + init.len();
            assert(prev == (msgs + init).subrange(n - cap, n as int));
            assert(prev.push(ms.last()).drop_first() =~= all.subrange(all.len() - cap, all.len() as int));
        }
    } else {
        assert(msgs + ms =~= msgs);
    }
}

/// The developer console.
pub struct Console<C> {
    messages: VecDeque<String>,
    is_visible: bool,
    input_buffer: String,
    history: VecDeque<String>,
    history_index: Option<usize>,
    /// Whether the FPS counter overlay is shown (even when the console is hidden).
    show_fps: bool,
    commands: Vec<CommandEntry<C>>,
    command_order: Vec<String>,
    suggestion_names: Vec<String>,
    suggestion_index: Option<usize>,
}

/// The abstract state of a console: everything but the command objects.
pub struct ConsoleView {
    /// The messages, oldest first.
    pub msgs: Seq<Seq<char>>,
    /// The command history, oldest first.
    pub hist: Seq<Seq<char>>,
    /// The registered command names, in registration order.
    pub names: Seq<Seq<char>>,
    /// The extra suggestion names, in the order they were added.
    pub extra_names: Seq<Seq<char>>,
    pub visible: bool,
    /// Whether the FPS counter overlay is on.
    pub fps_shown: bool,
    /// The text typed so far.
    pub input: Seq<char>,
    pub history_cursor: Option<usize>,
    pub suggestion_cursor: Option<usize>,
}

impl<C> View for Console<C> {
    type V = ConsoleView;

    closed spec fn view(&self) -> ConsoleView {
        ConsoleView {
            msgs: views(self.messages@),
            hist: views(self.history@),
            names: views(self.command_order@),
            extra_names: views(self.suggestion_names@),
            visible: self.is_visible,
            fps_shown: self.show_fps,
            input: self.input_buffer@,
            history_cursor: self.history_index,
            suggestion_cursor: self.suggestion_index,
        }
    }
}


/// `names` with `n` appended unless it is already there.
pub open spec fn upsert_name(names: Seq<Seq<char>>, n: Seq<char>) -> Seq<Seq<char>> {
    if names.contains(n) {
        names
    } else {
        names.push(n)
    }
}

/// The names and entries after registering `c` under `n`: an entry of the
/// same name is replaced in place, otherwise both are appended.
pub open spec fn register_one<C>(names: Seq<Seq<char>>, entries: Seq<CommandEntry<C>>, n: Seq<char>, c: C)
    -> (Seq<Seq<char>>, Seq<CommandEntry<C>>)
{
    if names.contains(n) {
        (names, entries.update(names.index_of(n), CommandEntry::Custom(c)))
    } else {
        (names.push(n), entries.push(CommandEntry::Custom(c)))
    }
}

/// The names and entries after registering each of `cs` in turn, the
/// `i`-th under the name `ns[i]`.
pub open spec fn register_all<C>(names: Seq<Seq<char>>, entries: Seq<CommandEntry<C>>, ns: Seq<Seq<char>>, cs: Seq<C>)
    -> (Seq<Seq<char>>, Seq<CommandEntry<C>>)
    decreases cs.len(),
{
    if cs.len() == 0 {
        (names, entries)
    } else {
        let prev = register_all(names, entries, ns.drop_last(), cs.drop_last());
        register_one(prev.0, prev.1, ns.last(), cs.last())
    }
}

/// `names` without `n`.
pub open spec fn remove_name(names: Seq<Seq<char>>, n: Seq<char>) -> Seq<Seq<char>> {
    if names.contains(n) {
        names.remove(names.index_of(n))
    } else {
        names
    }
}

/// The extra suggestion list after offering each of `offered` in turn: a name
/// is added when it is neither a command name nor already listed.
pub open spec fn add_extra_names(names: Seq<Seq<char>>, extra: Seq<Seq<char>>, offered: Seq<Seq<char>>) -> Seq<Seq<char>>
    decreases offered.len(),
{
    if offered.len() == 0 {
        extra
    } else {
        let e = add_extra_names(names, extra, offered.drop_last());
        let n = offered.last();
        if names.contains(n) || e.contains(n) {
            e
        } else {
            e.push(n)
        }
    }
}

/// The history cursor after moving up (towards older entries).
pub open spec fn history_up_index(cursor: Option<usize>, len: nat) -> usize {
    match cursor {
        Some(i) => if i > 0 { (i - 1) as usize } else { 0 },
        None => (len - 1) as usize,
    }
}

pub open spec fn initial_view() -> ConsoleView {
    ConsoleView {
        msgs: seq!["Runa Console initialized. Press ` to open."@],
        hist: Seq::empty(),
        names: seq!["echo"@, "clear"@, "test"@, "version"@],
        extra_names: Seq::empty(),
        visible: false,
        fps_shown: false,
        input: Seq::empty(),
        history_cursor: None,
        suggestion_cursor: None,
    }
}


/// The names in `names` that begin with `p`, in order.
pub open spec fn with_prefix(names: Seq<Seq<char>>, p: Seq<char>) -> Seq<Seq<char>>
    decreases names.len(),
{
    if names.len() == 0 {
        Seq::empty()
    } else {
        let w = with_prefix(names.drop_last(), p);
        if p.is_prefix_of(names.last()) {
            w.push(names.last())
        } else {
            w
        }
    }
}

/// `results` with `special` added when it begins with `p` and `guard` is not
/// among the results yet.
pub open spec fn add_special(results: Seq<Seq<char>>, special: Seq<char>, guard: Seq<char>, p: Seq<char>) -> Seq<Seq<char>> {
    if p.is_prefix_of(special) && !results.contains(guard) {
        results.push(special)
    } else {
        results
    }
}

/// The suggestions for prefix `p`, before sorting: the command and extra
/// names that begin with `p`, then `help`, `fps`, `quit`, `cls` (unless
/// `clear` matched) and `editor` when they begin with `p` and are not there yet.
pub open spec fn match_candidates(names: Seq<Seq<char>>, extra: Seq<Seq<char>>, p: Seq<char>) -> Seq<Seq<char>> {
    let base = with_prefix(names + extra, p);
    let r1 = add_special(base, "help"@, "help"@, p);
    let r2 = add_special(r1, "fps"@, "fps"@, p);
    let r3 = add_special(r2, "quit"@, "quit"@, p);
    let r4 = add_special(r3, "cls"@, "clear"@, p);
    add_special(r4, "editor"@, "editor"@, p)
}

/// The prefix that suggestions are matched against: the input line trimmed
/// and lowercased.
pub open spec fn suggestion_prefix(input: Seq<char>) -> Seq<char> {
    spec_to_lowercase(trim(input))
}

/// The sorted suggestions for the console's current input line.
pub open spec fn suggestions(v: ConsoleView) -> Seq<Seq<char>> {
    let p = suggestion_prefix(v.input);
    if p.len() == 0 {
        Seq::empty()
    } else {
        match_candidates(v.names, v.extra_names, p).sort_by(text_le())
    }
}

proof fn lemma_with_prefix_contains(names: Seq<Seq<char>>, p: Seq<char>)
    ensures
        forall|s: Seq<char>| #[trigger] with_prefix(names, p).contains(s) <==> (names.contains(s) && p.is_prefix_of(s)),
    decreases names.len(),
{
    broadcast use vstd::seq_lib::lemma_seq_contains_after_push;
    if names.len() > 0 {
        let t = names.drop_last();
        lemma_with_prefix_contains(t, p);
        assert(names == t.push(names.last()));
        assert forall|s: Seq<char>| #[trigger] with_prefix(names, p).contains(s) <==> (names.contains(s) && p.is_prefix_of(s)) by {
            vstd::seq_lib::lemma_seq_contains_after_push(t, names.last(), s);
            vstd::seq_lib::lemma_seq_contains_after_push(with_prefix(t, p), names.last(), s);
        }
    }
}

/// What the console suggests for a typed prefix: for a non-empty prefix
/// `p` (the input line trimmed and lowercased), every suggestion starts
/// with `p`; every registered or extra name starting with `p` is suggested;
/// and each of the console's own words `help`, `fps`, `quit` and `editor`
/// that starts with `p` is suggested, as is `cls` unless `clear` is. An
/// empty prefix gets no suggestion.
pub proof fn lemma_suggestions_law(v: ConsoleView)
    ensures
        suggestion_prefix(v.input).len() == 0 ==> suggestions(v).len() == 0,
        suggestion_prefix(v.input).len() > 0 ==> {
            let p = suggestion_prefix(v.input);
            let m = suggestions(v);
            &&& forall|s: Seq<char>| #[trigger] m.contains(s) ==> p.is_prefix_of(s)
            &&& forall|s: Seq<char>| (v.names.contains(s) || v.extra_names.contains(s)) && p.is_prefix_of(s)
                ==> #[trigger] m.contains(s)
            &&& p.is_prefix_of("help"@) ==> m.contains("help"@)
            &&& p.is_prefix_of("fps"@) ==> m.contains("fps"@)
            &&& p.is_prefix_of("quit"@) ==> m.contains("quit"@)
            &&& p.is_prefix_of("editor"@) ==> m.contains("editor"@)
            &&& p.is_prefix_of("cls"@) && !m.contains("clear"@) ==> m.contains("cls"@)
        },
{
    broadcast use vstd::seq_lib::lemma_seq_contains_after_push;
    broadcast use vstd::seq_lib::group_to_multiset_ensures;
    let p = suggestion_prefix(v.input);
    if p.len() > 0 {
        let all = v.names + v.extra_names;
        let base = with_prefix(all, p);
        let r1 = add_special(base, "help"@, "help"@, p);
        let r2 = add_special(r1, "fps"@, "fps"@, p);
        let r3 = add_special(r2, "quit"@, "quit"@, p);
        let r4 = add_special(r3, "cls"@, "clear"@, p);
        let c = add_special(r4, "editor"@, "editor"@, p);
        assert(c == match_candidates(v.names, v.extra_names, p));
        let m = suggestions(v);
        lemma_text_le_total_ordering();
        c.lemma_sort_by_ensures(text_le());
        assert forall|s: Seq<char>| #[trigger] m.contains(s) <==> c.contains(s) by {
            assert(m.to_multiset().count(s) == c.to_multiset().count(s));
        }
        lemma_with_prefix_contains(all, p);
        assert forall|s: Seq<char>| (v.names.contains(s) || v.extra_names.contains(s)) implies #[trigger] all.contains(s) by {
            if v.names.contains(s) {
                let i = choose|i: int| 0 <= i < v.names.len() && v.names[i] == s;
                assert(all[i] == s);
            } else {
                let i = choose|i: int| 0 <= i < v.extra_names.len() && v.extra_names[i] == s;
                assert(all[v.names.len() + i] == s);
            }
        }
        // Each step keeps what was there and adds only words that start with `p`.
        assert forall|s: Seq<char>| #[trigger] c.contains(s) implies p.is_prefix_of(s) by {
            if !base.contains(s) {
                assert(s == "help"@ || s == "fps"@ || s == "quit"@ || s == "cls"@ || s == "editor"@);
            }
        }
        assert(base.contains("help"@) ==> r1.contains("help"@));
        assert(p.is_prefix_of("help"@) ==> r1.contains("help"@));
        assert(p.is_prefix_of("fps"@) ==> r2.contains("fps"@));
        assert(p.is_prefix_of("quit"@) ==> r3.contains("quit"@));
        assert(p.is_prefix_of("cls"@) && !c.contains("clear"@) ==> r4.contains("cls"@)) by {
            if p.is_prefix_of("cls"@) && !c.contains("clear"@) {
                assert(!r3.contains("clear"@));
            }
        }
        assert(p.is_prefix_of("editor"@) ==> c.contains("editor"@));
    }
}

/// How the suggestion at `i` is shown: in brackets when it is highlighted.
pub open spec fn strip_item(s: Seq<char>, i: int, cursor: Option<usize>) -> Seq<char> {
    if cursor == Some(i as usize) && 0 <= i {
        "["@ + s + "]"@
    } else {
        s
    }
}

/// The first `k` suggestions as shown, two spaces apart.
pub open spec fn strip_text(ms: Seq<Seq<char>>, cursor: Option<usize>, k: int) -> Seq<char>
    decreases k,
{
    if k <= 0 {
        Seq::empty()
    } else if k == 1 {
        strip_item(ms[0], 0, cursor)
    } else {
        strip_text(ms, cursor, k - 1) + "  "@ + strip_item(ms[k - 1], k - 1, cursor)
    }
}

/// The suggestion cursor after moving forward through `len` suggestions.
pub open spec fn next_cursor(cursor: Option<usize>, len: nat) -> usize {
    match cursor {
        Some(i) => ((i + 1) % (len as int)) as usize,
        None => 0,
    }
}

/// The suggestion cursor after moving backward through `len` suggestions.
pub open spec fn previous_cursor(cursor: Option<usize>, len: nat) -> usize {
    match cursor {
        Some(i) => ((i + len - 1) % (len as int)) as usize,
        None => (len - 1) as usize,
    }
}

proof fn lemma_wrap_next(i: int, len: int)
    requires
        i >= 0,
        len > 0,
    ensures
        (i + 1) % len == (if i % len == len - 1 { 0 } else { i % len + 1 }),
{
    let q = i / len;
    let r = i % len;
    vstd::arithmetic::div_mod::lemma_fundamental_div_mod(i, len);
    assert(0 <= r < len);
    if r == len - 1 {
        assert(i + 1 == (q + 1) * len + 0) by (nonlinear_arith)
            requires
                i == len * q + r,
                r == len - 1,
        ;
        vstd::arithmetic::div_mod::lemma_fundamental_div_mod_converse_mod(i + 1, len, q + 1, 0);
    } else {
        assert(i + 1 == q * len + (r + 1)) by (nonlinear_arith)
            requires
                i == len * q + r,
        ;
        vstd::arithmetic::div_mod::lemma_fundamental_div_mod_converse_mod(i + 1, len, q, r + 1);
    }
}

proof fn lemma_wrap_previous(i: int, len: int)
    requires
        i >= 0,
        len > 0,
    ensures
        (i + len - 1) % len == (if i % len == 0 { len - 1 } else { i % len - 1 }),
{
    let q = i / len;
    let r = i % len;
    vstd::arithmetic::div_mod::lemma_fundamental_div_mod(i, len);
    assert(0 <= r < len);
    if r == 0 {
        assert(i + len - 1 == q * len + (len - 1)) by (nonlinear_arith)
            requires
                i == len * q + r,
                r == 0,
        ;
        vstd::arithmetic::div_mod::lemma_fundamental_div_mod_converse_mod(i + len - 1, len, q, len - 1);
    } else {
        assert(i + len - 1 == (q + 1) * len + (r - 1)) by (nonlinear_arith)
            requires
                i == len * q + r,
        ;
        vstd::arithmetic::div_mod::lemma_fundamental_div_mod_converse_mod(i + len - 1, len, q + 1, r - 1);
    }
}


/// The listing that `help` prints, before sorting: each registered command
/// with its description, then `help`, `fps` and `quit`, and `cls` (described
/// as the first `clear` entry's description followed by " (alias)") when a
/// `clear` entry is present.
pub open spec fn described(named: Seq<(Seq<char>, Seq<char>)>) -> Seq<(Seq<char>, Seq<char>)> {
    let base = named + seq![
        ("help"@, "Show help for commands"@),
        ("fps"@, "Toggle FPS counter overlay"@),
        ("quit"@, "Close the console"@),
    ];
    if exists|i: int| 0 <= i < base.len() && #[trigger] base[i].0 == "clear"@ {
        let pos = choose|i: int| 0 <= i < base.len() && #[trigger] base[i].0 == "clear"@ && (forall|k: int| 0 <= k < i ==> base[k].0 != "clear"@);
        base.push(("cls"@, base[pos].1 + " (alias)"@))
    } else {
        base
    }
}

/// Whether `named` pairs each registered name with a description, the
/// built-in commands with their own.
pub open spec fn names_described<C>(names: Seq<Seq<char>>, entries: Seq<CommandEntry<C>>, named: Seq<(Seq<char>, Seq<char>)>) -> bool {
    &&& named.len() == names.len()
    &&& forall|k: int| 0 <= k < named.len() ==> #[trigger] named[k].0 == names[k]
    &&& forall|k: int| 0 <= k < named.len() && k < entries.len() ==> (#[trigger] entries[k] matches CommandEntry::Builtin(b) ==> named[k].1 == builtin_description(b))
}

/// Whether `listing` is the sorted `help` listing for the given commands.
pub open spec fn is_help_listing<C>(names: Seq<Seq<char>>, entries: Seq<CommandEntry<C>>, listing: Seq<(Seq<char>, Seq<char>)>) -> bool {
    exists|named: Seq<(Seq<char>, Seq<char>)>| #[trigger] names_described(names, entries, named)
        && sorted_by_first(listing)
        && listing.to_multiset() == described(named).to_multiset()
}

/// `n` padded with spaces to at least twelve characters, as `{:<12}` does.
pub open spec fn pad_name(n: Seq<char>) -> Seq<char> {
    if n.len() < 12 {
        n + Seq::new((12 - n.len()) as nat, |i: int| ' ')
    } else {
        n
    }
}

/// One line of the `help` listing.
pub open spec fn help_line(p: (Seq<char>, Seq<char>)) -> Seq<char> {
    "  "@ + pad_name(p.0) + " "@ + p.1
}

/// The message for a `help` topic that names nothing.
pub open spec fn no_help_message(topic: Seq<char>) -> Seq<char> {
    "No help for '"@ + topic + "'."@
}

/// The message for a command that is not registered.
pub open spec fn unknown_command_message(command: Seq<char>) -> Seq<char> {
    "Unknown command: '"@ + command + "'. Type 'help' for commands."@
}

/// The command word of an input line: its first word, lowercased.
pub open spec fn command_word(input: Seq<char>) -> Seq<char> {
    spec_to_lowercase(words(trim(input))[0])
}

/// The arguments of an input line: the words after the first.
pub open spec fn command_args(input: Seq<char>) -> Seq<Seq<char>> {
    words(trim(input)).drop_first()
}

pub open spec fn with_msgs(v: ConsoleView, msgs: Seq<Seq<char>>) -> ConsoleView {
    ConsoleView { msgs: msgs, ..v }
}

/// What `help` with a topic adds to the log, given the registered commands:
/// for a command of the caller's, the lines its `detailed_help` gave, in
/// order, or, when it gave none, one `<name>: <description>` line.
pub open spec fn topic_help_effect<C: ConsoleCommand>(v: ConsoleView, entries: Seq<CommandEntry<C>>, topic: Seq<char>, v2: ConsoleView) -> bool {
    let cap = MAX_MESSAGES as nat;
    if topic == "help"@ {
        v2 == with_msgs(v, push_all_capped(v.msgs, seq!["help [cmd] - Show help for a specific command."@], cap))
    } else if topic == "fps"@ {
        v2 == with_msgs(v, push_all_capped(v.msgs, seq!["fps - Toggle the FPS counter overlay."@, "Shows framerate in the top-left corner."@], cap))
    } else if topic == "quit"@ || topic == "exit"@ {
        v2 == with_msgs(v, push_all_capped(v.msgs, seq!["quit / exit - Close the console."@], cap))
    } else if v.names.contains(topic) {
        match entries[v.names.index_of(topic)] {
            CommandEntry::Builtin(b) => v2 == with_msgs(v, push_all_capped(v.msgs, builtin_help(b), cap)),
            CommandEntry::Custom(c) => exists|h: Vec<String>| #[trigger] call_ensures(C::detailed_help, (&c,), h) && if views(h@).len() > 0 {
                v2 == with_msgs(v, push_all_capped(v.msgs, views(h@), cap))
            } else {
                exists|n: String, d: String|
                    #![trigger call_ensures(C::name, (&c,), n), call_ensures(C::description, (&c,), d)]
                    call_ensures(C::name, (&c,), n) && call_ensures(C::description, (&c,), d)
                        && v2 == with_msgs(v, push_capped(v.msgs, n@ + ": "@ + d@, cap))
            },
        }
    } else {
        v2 == with_msgs(v, push_capped(v.msgs, no_help_message(topic), cap))
    }
}


/// `help <topic>` for a command of the caller's: when its `detailed_help`
/// always gives the lines `help` and they are not empty, exactly those lines
/// are logged, in order; when it always gives none, the one line
/// `<name>: <description>` is logged, from what its `name` and `description`
/// always give.
pub proof fn lemma_custom_topic_help<C: ConsoleCommand>(
    v: ConsoleView,
    entries: Seq<CommandEntry<C>>,
    topic: Seq<char>,
    v2: ConsoleView,
    c: C,
    help: Seq<Seq<char>>,
    name: Seq<char>,
    description: Seq<char>,
)
    requires
        topic != "help"@ && topic != "fps"@ && topic != "quit"@ && topic != "exit"@,
        v.names.contains(topic),
        entries[v.names.index_of(topic)] == CommandEntry::Custom(c),
        forall|h: Vec<String>| #[trigger] call_ensures(C::detailed_help, (&c,), h) ==> views(h@) == help,
        forall|n: String| #[trigger] call_ensures(C::name, (&c,), n) ==> n@ == name,
        forall|d: String| #[trigger] call_ensures(C::description, (&c,), d) ==> d@ == description,
        topic_help_effect(v, entries, topic, v2),
    ensures
        help.len() > 0 ==> v2 == with_msgs(v, push_all_capped(v.msgs, help, MAX_MESSAGES as nat)),
        help.len() == 0 ==> v2 == with_msgs(v, push_capped(v.msgs, name + ": "@ + description, MAX_MESSAGES as nat)),
{
}

/// The log a command's output is appended to: emptied for `clear`.
pub open spec fn log_before_run(cmd: Seq<char>, msgs: Seq<Seq<char>>) -> Seq<Seq<char>> {
    if cmd == "clear"@ {
        Seq::empty()
    } else {
        msgs
    }
}

/// The effect of running the registered command at position `k` with `args`:
/// `clear` empties the log first; the command's output lines are then logged.
pub open spec fn registered_effect<C>(
    v: ConsoleView,
    entries: Seq<CommandEntry<C>>,
    k: int,
    cmd: Seq<char>,
    args: Seq<Seq<char>>,
    v2: ConsoleView,
    entries2: Seq<CommandEntry<C>>,
) -> bool {
    let start = log_before_run(cmd, v.msgs);
    match entries[k] {
        CommandEntry::Builtin(b) => entries2 == entries && v2 == with_msgs(v, push_all_capped(start, builtin_output(b, args), MAX_MESSAGES as nat)),
        CommandEntry::Custom(_) => {
            &&& entries2.len() == entries.len()
            &&& entries2[k] is Custom
            &&& (forall|j: int| 0 <= j < entries.len() && j != k ==> entries2[j] == entries[j])
            &&& exists|outs: Seq<Seq<char>>| v2 == with_msgs(v, #[trigger] push_all_capped(start, outs, MAX_MESSAGES as nat))
        },
    }
}

/// The effect of running one input line with `try_execute`: `r` is whether
/// the command was found; `v2` and `entries2` are the console afterwards.
pub open spec fn execute_effect<C: ConsoleCommand>(
    v: ConsoleView,
    entries: Seq<CommandEntry<C>>,
    input: Seq<char>,
    v2: ConsoleView,
    entries2: Seq<CommandEntry<C>>,
    r: bool,
) -> bool {
    let cap = MAX_MESSAGES as nat;
    if trim(input).len() == 0 {
        r && v2 == v && entries2 == entries
    } else {
        let cmd = command_word(input);
        let args = command_args(input);
        if cmd == "help"@ {
            &&& r
            &&& entries2 == entries
            &&& if args.len() == 0 {
                exists|listing: Seq<(Seq<char>, Seq<char>)>| #[trigger] is_help_listing(v.names, entries, listing)
                    && v2 == with_msgs(v, push_all_capped(v.msgs, seq!["Available commands:"@] + listing.map_values(|p: (Seq<char>, Seq<char>)| help_line(p)), cap))
            } else {
                topic_help_effect(v, entries, args[0], v2)
            }
        } else if cmd == "fps"@ {
            &&& r
            &&& entries2 == entries
            &&& v2 == ConsoleView {
                fps_shown: !v.fps_shown,
                msgs: push_capped(v.msgs, if !v.fps_shown { "FPS counter: ON"@ } else { "FPS counter: OFF"@ }, cap),
                ..v
            }
        } else if cmd == "quit"@ || cmd == "exit"@ {
            &&& r
            &&& entries2 == entries
            &&& v2 == ConsoleView { visible: false, msgs: push_capped(v.msgs, "Console closed."@, cap), ..v }
        } else if cmd == "cls"@ {
            &&& r
            &&& entries2 == entries
            &&& v2 == with_msgs(v, seq!["Console cleared."@])
        } else if v.names.contains(cmd) {
            r && registered_effect(v, entries, v.names.index_of(cmd), cmd, args, v2, entries2)
        } else {
            !r && v2 == v && entries2 == entries
        }
    }
}

/// The effect of `execute_command`: run the trimmed line, and log an
/// unknown-command message when it names no command.
pub open spec fn command_effect<C: ConsoleCommand>(v: ConsoleView, entries: Seq<CommandEntry<C>>, input: Seq<char>, v2: ConsoleView, entries2: Seq<CommandEntry<C>>) -> bool {
    let t = trim(input);
    if t.len() == 0 {
        v2 == v && entries2 == entries
    } else {
        ||| execute_effect(v, entries, t, v2, entries2, true)
        ||| (execute_effect(v, entries, t, v, entries2, false) && v2 == with_msgs(v, push_capped(v.msgs, unknown_command_message(t), MAX_MESSAGES as nat)))
    }
}

proof fn lemma_push_all_one(m: Seq<Seq<char>>, x: Seq<char>, cap: nat)
    ensures
        push_all_capped(m, seq![x], cap) == push_capped(m, x, cap),
{
    assert(seq![x].drop_last() =~= Seq::<Seq<char>>::empty());
    assert(push_all_capped(m, Seq::<Seq<char>>::empty(), cap) == m);
}

proof fn lemma_push_all_two(m: Seq<Seq<char>>, x: Seq<char>, y: Seq<char>, cap: nat)
    ensures
        push_all_capped(m, seq![x, y], cap) == push_capped(push_capped(m, x, cap), y, cap),
{
    assert(seq![x, y].drop_last() =~= seq![x]);
    lemma_push_all_one(m, x, cap);
}


/// The console with `v.input` recorded as submitted: added to the history
/// (cursors reset) and echoed to the log after "> ".
pub open spec fn submitted_view(v: ConsoleView) -> ConsoleView {
    ConsoleView {
        hist: push_capped(v.hist, v.input, MAX_HISTORY as nat),
        history_cursor: None,
        suggestion_cursor: None,
        msgs: push_capped(v.msgs, "> "@ + v.input, MAX_MESSAGES as nat),
        ..v
    }
}

/// What a keyboard event does to the console: `v`/`entries` before it,
/// `v2`/`entries2` after it.
pub open spec fn keyboard_effect<C: ConsoleCommand>(
    v: ConsoleView,
    e: Seq<CommandEntry<C>>,
    v2: ConsoleView,
    e2: Seq<CommandEntry<C>>,
    key: ConsoleKey,
    text: Option<String>,
    pressed: bool,
    repeat: bool,
) -> bool {
    if pressed && key == ConsoleKey::Backquote {
        e2 == e && if repeat {
            v2 == v
        } else if !v.visible {
            v2 == (ConsoleView {
                visible: true,
                input: Seq::empty(),
                history_cursor: None,
                suggestion_cursor: None,
                msgs: push_capped(v.msgs, "Console opened. Type 'help' for available commands."@, MAX_MESSAGES as nat),
                ..v
            })
        } else {
            v2 == (ConsoleView { visible: false, ..v })
        }
    } else if !v.visible || !pressed {
        v2 == v && e2 == e
    } else {
        match key {
            ConsoleKey::Enter => submit_effect(v, e, v2, e2),
            ConsoleKey::Backspace => e2 == e && v2 == (ConsoleView {
                input: if v.input.len() > 0 { v.input.drop_last() } else { v.input },
                suggestion_cursor: None,
                ..v
            }),
            ConsoleKey::Escape => e2 == e && v2 == (ConsoleView { visible: false, input: Seq::empty(), suggestion_cursor: None, ..v }),
            ConsoleKey::ArrowUp => e2 == e && v2 == (ConsoleView {
                history_cursor: if v.hist.len() > 0 { Some(history_up_index(v.history_cursor, v.hist.len())) } else { v.history_cursor },
                input: if v.hist.len() > 0 { v.hist[history_up_index(v.history_cursor, v.hist.len()) as int] } else { v.input },
                suggestion_cursor: None,
                ..v
            }),
            ConsoleKey::ArrowDown => e2 == e && v2 == (match v.history_cursor {
                None => ConsoleView { suggestion_cursor: None, ..v },
                Some(i) => if i + 1 < v.hist.len() {
                    ConsoleView { history_cursor: Some((i + 1) as usize), input: v.hist[i + 1], suggestion_cursor: None, ..v }
                } else {
                    ConsoleView { history_cursor: None, input: Seq::empty(), suggestion_cursor: None, ..v }
                },
            }),
            ConsoleKey::Tab => e2 == e && ({
                let m = suggestions(v);
                if m.len() == 0 {
                    v2 == (ConsoleView { suggestion_cursor: None, ..v })
                } else {
                    let k = next_cursor(v.suggestion_cursor, m.len());
                    v2 == (ConsoleView { suggestion_cursor: Some(k), input: m[k as int] + " "@, ..v })
                }
            }),
            ConsoleKey::ArrowRight => e2 == e && ({
                let m = suggestions(v);
                if m.len() == 0 {
                    v2 == (ConsoleView { suggestion_cursor: None, ..v })
                } else {
                    v2 == (ConsoleView { suggestion_cursor: Some(next_cursor(v.suggestion_cursor, m.len())), ..v })
                }
            }),
            ConsoleKey::ArrowLeft => e2 == e && ({
                let m = suggestions(v);
                if m.len() == 0 {
                    v2 == (ConsoleView { suggestion_cursor: None, ..v })
                } else {
                    v2 == (ConsoleView { suggestion_cursor: Some(previous_cursor(v.suggestion_cursor, m.len())), ..v })
                }
            }),
            _ => e2 == e && match text {
                Some(t) => v2 == (ConsoleView { input: v.input + printable(t@), suggestion_cursor: None, ..v }),
                None => v2 == v,
            },
        }
    }
}

/// The effect of submitting the input line: nothing for an empty line;
/// otherwise record it, run it as `execute_command` does and clear the line.
pub open spec fn submit_effect<C: ConsoleCommand>(v: ConsoleView, entries: Seq<CommandEntry<C>>, v2: ConsoleView, entries2: Seq<CommandEntry<C>>) -> bool {
    if v.input.len() == 0 {
        v2 == v && entries2 == entries
    } else {
        exists|v1: ConsoleView| #[trigger] command_effect(submitted_view(v), entries, v.input, v1, entries2)
            && v2 == (ConsoleView { input: Seq::empty(), ..v1 })
    }
}

/// The printable ASCII characters of `s` (space through `~`), in order.
pub open spec fn printable(s: Seq<char>) -> Seq<char>
    decreases s.len(),
{
    if s.len() == 0 {
        Seq::empty()
    } else {
        let p = printable(s.drop_last());
        if ' ' <= s.last() && s.last() <= '~' {
            p.push(s.last())
        } else {
            p
        }
    }
}

/// A key the console reacts to; every other key is `Other`.
#[derive(Clone, Copy, PartialEq, Eq, Structural, Debug)]
pub enum ConsoleKey {
    Backquote,
    Enter,
    Backspace,
    Escape,
    ArrowUp,
    ArrowDown,
    Tab,
    ArrowRight,
    ArrowLeft,
    Other,
}
impl<C: ConsoleCommand> Console<C> {
    /// The registered command objects, in registration order.
    pub closed spec fn entries(&self) -> Seq<CommandEntry<C>> {
        self.commands@
    }

    /// The console's invariant: the logs are within their caps, every
    /// registered name has its command, names are distinct, and the history
    /// cursor points into the history.
    pub closed spec fn wf(&self) -> bool {
        &&& self.messages@.len() <= MAX_MESSAGES
        &&& self.history@.len() <= MAX_HISTORY
        &&& self.commands@.len() == self.command_order@.len()
        &&& views(self.command_order@).no_duplicates()
        &&& (self.history_index matches Some(i) ==> i < self.history@.len())
    }

    /// What every console keeps: at most `MAX_MESSAGES` messages and
    /// `MAX_HISTORY` history entries, and no command name twice.
    pub proof fn lemma_console_bounds(&self)
        requires
            self.wf(),
        ensures
            self@.msgs.len() <= MAX_MESSAGES,
            self@.hist.len() <= MAX_HISTORY,
            self@.names.no_duplicates(),
    {
    }

    /// Adds a message, dropping the oldest one when the log is full.
    pub fn add_message(&mut self, message: String)
        requires
            old(self).wf(),
        ensures
            final(self).wf(),
            final(self)@ == (ConsoleView { msgs: push_capped(old(self)@.msgs, message@, MAX_MESSAGES as nat), ..old(self)@ }),
            final(self).entries() == old(self).entries(),
    {
        let ghost m = message@;
        self.messages.push_back(message);
        if self.messages.len() > MAX_MESSAGES {
            let _ = self.messages.pop_front();
        }
        proof {
            let s = old(self).messages@.push(message);
            assert(views(s) =~= old(self)@.msgs.push(m));
            if s.len() > MAX_MESSAGES {
                assert(self.messages@ =~= s.drop_first());
                assert(views(s.drop_first()) =~= views(s).drop_first());
            }
        }
    }

    /// Adds each message in turn.
    pub fn add_messages(&mut self, messages: Vec<String>)
        requires
            old(self).wf(),
        ensures
            final(self).wf(),
            final(self)@ == (ConsoleView { msgs: push_all_capped(old(self)@.msgs, views(messages@), MAX_MESSAGES as nat), ..old(self)@ }),
            final(self).entries() == old(self).entries(),
    {
        let ghost all = views(messages@);
        let mut i: usize = 0;
        while i < messages.len()
            invariant
                self.wf(),
                i <= messages.len(),
                all == views(messages@),
                self@ == (ConsoleView { msgs: push_all_capped(old(self)@.msgs, all.subrange(0, i as int), MAX_MESSAGES as nat), ..old(self)@ }),
                self.entries() == old(self).entries(),
            decreases messages.len() - i,
        {
            let m = messages[i].clone();
            proof {
                assert(all.subrange(0, i + 1).drop_last() =~= all.subrange(0, i as int));
            }
            self.add_message(m);
            i = i + 1;
        }
        assert(all.subrange(0, messages.len() as int) =~= all);
    }

    /// A console with the built-in commands registered and a greeting logged.
    pub fn new() -> (c: Self)
        ensures
            c.wf(),
            c@ == initial_view(),
            c.entries() == seq![
                CommandEntry::<C>::Builtin(BuiltinCommand::Echo),
                CommandEntry::<C>::Builtin(BuiltinCommand::Clear),
                CommandEntry::<C>::Builtin(BuiltinCommand::Test),
                CommandEntry::<C>::Builtin(BuiltinCommand::Version),
            ],
    {
        let mut console = Console {
            messages: VecDeque::new(),
            is_visible: false,
            input_buffer: String::new(),
            history: VecDeque::new(),
            history_index: None,
            show_fps: false,
            commands: Vec::new(),
            command_order: Vec::new(),
            suggestion_names: Vec::new(),
            suggestion_index: None,
        };
        proof {
            reveal_strlit("echo");
            reveal_strlit("clear");
            reveal_strlit("test");
            reveal_strlit("version");
            assert(console@.names =~= Seq::<Seq<char>>::empty());
        }
        console.register_entry(BuiltinCommand::Echo.name(), CommandEntry::Builtin(BuiltinCommand::Echo));
        assert(console@.names =~= seq!["echo"@]);
        assert(!console@.names.contains("clear"@)) by {
            assert("clear"@.len() != "echo"@.len());
        }
        console.register_entry(BuiltinCommand::Clear.name(), CommandEntry::Builtin(BuiltinCommand::Clear));
        assert(console@.names =~= seq!["echo"@, "clear"@]);
        assert(!console@.names.contains("test"@)) by {
            assert("test"@[0] != "echo"@[0]);
            assert("test"@.len() != "clear"@.len());
        }
        console.register_entry(BuiltinCommand::Test.name(), CommandEntry::Builtin(BuiltinCommand::Test));
        assert(console@.names =~= seq!["echo"@, "clear"@, "test"@]);
        assert(!console@.names.contains("version"@)) by {
            assert("version"@.len() != "echo"@.len());
            assert("version"@.len() != "clear"@.len());
            assert("version"@.len() != "test"@.len());
        }
        console.register_entry(BuiltinCommand::Version.name(), CommandEntry::Builtin(BuiltinCommand::Version));
        proof {
            assert(console@.msgs =~= Seq::<Seq<char>>::empty());
        }
        console.add_message(owned("Runa Console initialized. Press ` to open."));
        proof {
            assert(console@.names =~= initial_view().names);
            assert(console@.msgs =~= initial_view().msgs);
            assert(console.entries() =~= seq![
                CommandEntry::<C>::Builtin(BuiltinCommand::Echo),
                CommandEntry::<C>::Builtin(BuiltinCommand::Clear),
                CommandEntry::<C>::Builtin(BuiltinCommand::Test),
                CommandEntry::<C>::Builtin(BuiltinCommand::Version),
            ]);
        }
        console
    }

    /// The position of `name` among the registered names.
    fn find_command(&self, name: &str) -> (r: Option<usize>)
        requires
            self.wf(),
        ensures
            match r {
                Some(i) => i < self@.names.len() && self@.names[i as int] == name@ && self@.names.index_of(name@) == i,
                None => !self@.names.contains(name@),
            },
    {
        let mut i: usize = 0;
        while i < self.command_order.len()
            invariant
                self.wf(),
                i <= self.command_order.len(),
                forall|k: int| 0 <= k < i ==> self@.names[k] != name@,
            decreases self.command_order.len() - i,
        {
            if str_eq(self.command_order[i].as_str(), name) {
                proof {
                    assert(self@.names[i as int] == name@);
                    assert(self@.names.contains(name@));
                    let j = self@.names.index_of(name@);
                    assert(self@.names[j] == name@);
                    assert(views(self.command_order@).no_duplicates());
                }
                return Some(i);
            }
            i = i + 1;
        }
        None
    }

    fn register_entry(&mut self, name: String, entry: CommandEntry<C>)
        requires
            old(self).wf(),
        ensures
            final(self).wf(),
            final(self)@ == (ConsoleView { names: upsert_name(old(self)@.names, name@), ..old(self)@ }),
            final(self).entries() == (if old(self)@.names.contains(name@) {
                old(self).entries().update(old(self)@.names.index_of(name@), entry)
            } else {
                old(self).entries().push(entry)
            }),
    {
        match self.find_command(name.as_str()) {
            Some(i) => {
                self.commands.set(i, entry);
            },
            None => {
                let ghost old_names = self@.names;
                self.command_order.push(name);
                self.commands.push(entry);
                proof {
                    assert(views(self.command_order@) =~= old_names.push(name@));
                    assert forall|a: int, b: int| 0 <= a < b < self@.names.len() implies self@.names[a] != self@.names[b] by {
                        if b == old_names.len() {
                            assert(old_names[a] == self@.names[a]);
                            assert(old_names.contains(old_names[a]));
                        }
                    }
                }
            },
        }
    }

    /// Registers `command` under `name`, replacing a command already
    /// registered under that name (which keeps its place in the order).
    pub fn register_command_named(&mut self, name: String, command: C)
        requires
            old(self).wf(),
        ensures
            final(self).wf(),
            final(self)@ == (ConsoleView { names: upsert_name(old(self)@.names, name@), ..old(self)@ }),
            final(self).entries() == (if old(self)@.names.contains(name@) {
                old(self).entries().update(old(self)@.names.index_of(name@), CommandEntry::Custom(command))
            } else {
                old(self).entries().push(CommandEntry::Custom(command))
            }),
    {
        self.register_entry(name, CommandEntry::Custom(command));
    }

    /// Registers a command under the name it reports.
    pub fn register_command(&mut self, command: C)
        requires
            old(self).wf(),
        ensures
            final(self).wf(),
            exists|n: Seq<char>| final(self)@ == (ConsoleView { names: #[trigger] upsert_name(old(self)@.names, n), ..old(self)@ }),
            final(self)@ == (ConsoleView { names: final(self)@.names, ..old(self)@ }),
            exists|n: Seq<char>| (final(self)@.names, final(self).entries())
                == #[trigger] register_one(old(self)@.names, old(self).entries(), n, command),
    {
        let name = command.name();
        let ghost n = name@;
        self.register_command_named(name, command);
        proof {
            assert((self@.names, self.entries()) == register_one(old(self)@.names, old(self).entries(), n, command));
        }
    }

    /// Registers each command in turn.
    pub fn register_commands(&mut self, commands: Vec<C>)
        requires
            old(self).wf(),
        ensures
            final(self).wf(),
            final(self)@.msgs == old(self)@.msgs,
            final(self)@.hist == old(self)@.hist,
            old(self)@.names.is_prefix_of(final(self)@.names),
            final(self)@ == (ConsoleView { names: final(self)@.names, ..old(self)@ }),
            exists|ns: Seq<Seq<char>>| ns.len() == commands@.len()
                && (final(self)@.names, final(self).entries())
                == #[trigger] register_all(old(self)@.names, old(self).entries(), ns, commands@),
    {
        let ghost all = commands@;
        let ghost mut ns: Seq<Seq<char>> = Seq::empty();
        let ghost mut done: int = 0;
        let mut rest = commands;
        proof {
            assert(all.subrange(0, 0).len() == 0);
        }
        while rest.len() > 0
            invariant
                self.wf(),
                self@.msgs == old(self)@.msgs,
                self@.hist == old(self)@.hist,
                old(self)@.names.is_prefix_of(self@.names),
                self@ == (ConsoleView { names: self@.names, ..old(self)@ }),
                0 <= done <= all.len(),
                ns.len() == done,
                rest@ == all.subrange(done, all.len() as int),
                (self@.names, self.entries()) == register_all(old(self)@.names, old(self).entries(), ns, all.subrange(0, done)),
            decreases rest.len(),
        {
            let c = rest.remove(0);
            let ghost pre_names = self@.names;
            let ghost pre_entries = self.entries();
            proof {
                assert(c == all[done]);
            }
            self.register_command(c);
            proof {
                let n = choose|n: Seq<char>| (self@.names, self.entries())
                    == #[trigger] register_one(pre_names, pre_entries, n, c);
                let ns2 = ns.push(n);
                let sub = all.subrange(0, done + 1);
                assert(sub.drop_last() =~= all.subrange(0, done));
                assert(sub.last() == c);
                assert(ns2.drop_last() =~= ns);
                assert(ns2.last() == n);
                assert(register_all(old(self)@.names, old(self).entries(), ns2, sub)
                    == register_one(pre_names, pre_entries, n, c));
                ns = ns2;
                done = done + 1;
                assert(rest@ =~= all.subrange(done, all.len() as int));
            }
        }
        proof {
            assert(all.subrange(0, done) =~= all);
        }
    }

    /// Removes the command registered under `name`, if any.
    pub fn unregister_command(&mut self, name: &str)
        requires
            old(self).wf(),
        ensures
            final(self).wf(),
            final(self)@ == (ConsoleView { names: remove_name(old(self)@.names, name@), ..old(self)@ }),
            final(self).entries() == (if old(self)@.names.contains(name@) {
                old(self).entries().remove(old(self)@.names.index_of(name@))
            } else {
                old(self).entries()
            }),
    {
        match self.find_command(name) {
            Some(i) => {
                let ghost old_names = self@.names;
                let _ = self.command_order.remove(i);
                let _ = self.commands.remove(i);
                proof {
                    assert(views(self.command_order@) =~= old_names.remove(i as int));
                    assert forall|a: int, b: int| 0 <= a < b < self@.names.len() implies self@.names[a] != self@.names[b] by {
                        let a2 = if a < i { a } else { a + 1 };
                        let b2 = if b < i { b } else { b + 1 };
                        assert(self@.names[a] == old_names[a2]);
                        assert(self@.names[b] == old_names[b2]);
                    }
                }
            },
            None => {},
        }
    }

    /// The registered command names, in registration order.
    pub fn command_names(&self) -> (r: Vec<String>)
        ensures
            views(r@) == self@.names,
    {
        let r = self.command_order.clone();
        assert(views(r@) =~= self@.names);
        r
    }

    /// Whether a command is registered under `name`.
    pub fn has_command(&self, name: &str) -> (r: bool)
        requires
            self.wf(),
        ensures
            r == self@.names.contains(name@),
    {
        self.find_command(name).is_some()
    }

    /// Shows or hides the console; showing it clears the input line and both cursors.
    pub fn toggle(&mut self)
        requires
            old(self).wf(),
        ensures
            final(self).wf(),
            final(self).entries() == old(self).entries(),
            final(self)@ == (if !old(self)@.visible {
                ConsoleView { visible: true, input: Seq::empty(), history_cursor: None, suggestion_cursor: None, ..old(self)@ }
            } else {
                ConsoleView { visible: false, ..old(self)@ }
            }),
    {
        self.is_visible = !self.is_visible;
        if self.is_visible {
            self.input_buffer = String::new();
            self.history_index = None;
            self.suggestion_index = None;
        }
    }

    pub fn is_visible(&self) -> (r: bool)
        ensures
            r == self@.visible,
    {
        self.is_visible
    }

    /// Shows or hides the console; hiding it clears the input line and both cursors.
    pub fn set_visible(&mut self, visible: bool)
        requires
            old(self).wf(),
        ensures
            final(self).wf(),
            final(self).entries() == old(self).entries(),
            final(self)@ == (if !visible {
                ConsoleView { visible: false, input: Seq::empty(), history_cursor: None, suggestion_cursor: None, ..old(self)@ }
            } else {
                ConsoleView { visible: true, ..old(self)@ }
            }),
    {
        self.is_visible = visible;
        if !visible {
            self.input_buffer = String::new();
            self.history_index = None;
            self.suggestion_index = None;
        }
    }

    /// Removes every message.
    pub fn clear_messages(&mut self)
        requires
            old(self).wf(),
        ensures
            final(self).wf(),
            final(self).entries() == old(self).entries(),
            final(self)@ == (ConsoleView { msgs: Seq::empty(), ..old(self)@ }),
    {
        self.messages = VecDeque::new();
        assert(views(self.messages@) =~= Seq::<Seq<char>>::empty());
    }

    /// The current messages, oldest first.
    pub fn messages(&self) -> (r: Vec<String>)
        ensures
            views(r@) == self@.msgs,
    {
        let mut r: Vec<String> = Vec::new();
        let mut i: usize = 0;
        while i < self.messages.len()
            invariant
                i <= self.messages@.len(),
                views(r@) == self@.msgs.subrange(0, i as int),
            decreases self.messages@.len() - i,
        {
            let m = self.messages[i].clone();
            assert(m@ == self@.msgs[i as int]);
            let ghost pre = r@;
            r.push(m);
            assert(views(r@) =~= views(pre).push(m@));
            assert(views(r@) =~= self@.msgs.subrange(0, i + 1));
            i = i + 1;
        }
        assert(self@.msgs.subrange(0, i as int) =~= self@.msgs);
        r
    }

    /// The input line.
    pub fn input_buffer(&self) -> (r: String)
        ensures
            r@ == self@.input,
    {
        self.input_buffer.clone()
    }

    /// Replaces the input line.
    pub fn set_input_buffer(&mut self, text: String)
        requires
            old(self).wf(),
        ensures
            final(self).wf(),
            final(self).entries() == old(self).entries(),
            final(self)@ == (ConsoleView { input: text@, ..old(self)@ }),
    {
        self.input_buffer = text;
    }

    pub fn show_fps(&self) -> (r: bool)
        ensures
            r == self@.fps_shown,
    {
        self.show_fps
    }

    pub fn set_show_fps(&mut self, show: bool)
        requires
            old(self).wf(),
        ensures
            final(self).wf(),
            final(self).entries() == old(self).entries(),
            final(self)@ == (ConsoleView { fps_shown: show, ..old(self)@ }),
    {
        self.show_fps = show;
    }

    /// Offers extra names for suggestions; each is added unless it is a
    /// command name or already listed.
    pub fn add_suggestion_names(&mut self, names: &[&str])
        requires
            old(self).wf(),
        ensures
            final(self).wf(),
            final(self).entries() == old(self).entries(),
            final(self)@ == (ConsoleView {
                extra_names: add_extra_names(old(self)@.names, old(self)@.extra_names, names@.map_values(|n: &str| n@)),
                ..old(self)@
            }),
    {
        let ghost offered = names@.map_values(|n: &str| n@);
        let mut i: usize = 0;
        while i < names.len()
            invariant
                self.wf(),
                i <= names@.len(),
                offered == names@.map_values(|n: &str| n@),
                self.entries() == old(self).entries(),
                self@ == (ConsoleView {
                    extra_names: add_extra_names(old(self)@.names, old(self)@.extra_names, offered.subrange(0, i as int)),
                    ..old(self)@
                }),
            decreases names@.len() - i,
        {
            let n = owned(names[i]);
            proof {
                assert(offered.subrange(0, i + 1).drop_last() =~= offered.subrange(0, i as int));
                assert(offered.subrange(0, i + 1).last() == n@);
            }
            let is_cmd = self.find_command(n.as_str()).is_some();
            let mut listed = false;
            let mut k: usize = 0;
            while k < self.suggestion_names.len()
                invariant
                    k <= self.suggestion_names@.len(),
                    listed == self@.extra_names.subrange(0, k as int).contains(n@),
                decreases self.suggestion_names@.len() - k,
            {
                let same = str_eq(self.suggestion_names[k].as_str(), n.as_str());
                proof {
                    let pre = self@.extra_names.subrange(0, k as int);
                    let post = self@.extra_names.subrange(0, k + 1);
                    assert(post =~= pre.push(self@.extra_names[k as int]));
                    assert(self@.extra_names[k as int] == self.suggestion_names@[k as int]@);
                    if same {
                        assert(post[k as int] == n@);
                    }
                    if post.contains(n@) && !same {
                        let j = choose|j: int| 0 <= j < post.len() && post[j] == n@;
                        assert(pre[j] == n@);
                    }
                }
                if same {
                    listed = true;
                }
                k = k + 1;
            }
            assert(self@.extra_names.subrange(0, k as int) =~= self@.extra_names);
            if !is_cmd && !listed {
                self.suggestion_names.push(n);
            }
            proof {
                assert(self@.extra_names =~= add_extra_names(old(self)@.names, old(self)@.extra_names, offered.subrange(0, i + 1)));
            }
            i = i + 1;
        }
        assert(offered.subrange(0, names@.len() as int) =~= offered);
    }

    /// The highlighted suggestion, if any.
    pub fn selected_suggestion(&self) -> (r: Option<usize>)
        ensures
            r == self@.suggestion_cursor,
    {
        self.suggestion_index
    }

    /// Forgets the highlighted suggestion.
    pub fn reset_suggestion(&mut self)
        requires
            old(self).wf(),
        ensures
            final(self).wf(),
            final(self).entries() == old(self).entries(),
            final(self)@ == (ConsoleView { suggestion_cursor: None, ..old(self)@ }),
    {
        self.suggestion_index = None;
    }

    /// Records `entry` in the history without running it; both cursors are reset.
    pub fn push_history(&mut self, entry: &str)
        requires
            old(self).wf(),
        ensures
            final(self).wf(),
            final(self).entries() == old(self).entries(),
            final(self)@ == (ConsoleView {
                hist: push_capped(old(self)@.hist, entry@, MAX_HISTORY as nat),
                history_cursor: None,
                suggestion_cursor: None,
                ..old(self)@
            }),
    {
        let e = owned(entry);
        let ghost s = self.history@.push(e);
        self.history.push_back(e);
        if self.history.len() > MAX_HISTORY {
            let _ = self.history.pop_front();
        }
        self.history_index = None;
        self.suggestion_index = None;
        proof {
            assert(views(s) =~= old(self)@.hist.push(entry@));
            if s.len() > MAX_HISTORY {
                assert(self.history@ =~= s.drop_first());
                assert(views(s.drop_first()) =~= views(s).drop_first());
            }
        }
    }

    /// The history, oldest first.
    pub fn history(&self) -> (r: Vec<String>)
        ensures
            views(r@) == self@.hist,
    {
        let mut r: Vec<String> = Vec::new();
        let mut i: usize = 0;
        while i < self.history.len()
            invariant
                i <= self.history@.len(),
                views(r@) == self@.hist.subrange(0, i as int),
            decreases self.history@.len() - i,
        {
            let h = self.history[i].clone();
            assert(h@ == self@.hist[i as int]);
            let ghost pre = r@;
            r.push(h);
            assert(views(r@) =~= views(pre).push(h@));
            assert(views(r@) =~= self@.hist.subrange(0, i + 1));
            i = i + 1;
        }
        assert(self@.hist.subrange(0, i as int) =~= self@.hist);
        r
    }

    /// Recalls the previous (older) history entry into the input line.
    pub fn navigate_history_up(&mut self)
        requires
            old(self).wf(),
        ensures
            final(self).wf(),
            final(self).entries() == old(self).entries(),
            old(self)@.hist.len() == 0 ==> final(self)@ == old(self)@,
            old(self)@.hist.len() > 0 ==> final(self)@ == (ConsoleView {
                history_cursor: Some(history_up_index(old(self)@.history_cursor, old(self)@.hist.len())),
                input: old(self)@.hist[history_up_index(old(self)@.history_cursor, old(self)@.hist.len()) as int],
                ..old(self)@
            }),
    {
        if self.history.len() == 0 {
            return;
        }
        let new_index = match self.history_index {
            Some(i) => if i > 0 { i - 1 } else { 0 },
            None => self.history.len() - 1,
        };
        self.history_index = Some(new_index);
        self.input_buffer = self.history[new_index].clone();
    }

    /// Recalls the next (newer) history entry, or clears the input line past the newest.
    pub fn navigate_history_down(&mut self)
        requires
            old(self).wf(),
        ensures
            final(self).wf(),
            final(self).entries() == old(self).entries(),
            final(self)@ == (match old(self)@.history_cursor {
                None => old(self)@,
                Some(i) => if i + 1 < old(self)@.hist.len() {
                    ConsoleView { history_cursor: Some((i + 1) as usize), input: old(self)@.hist[i + 1], ..old(self)@ }
                } else {
                    ConsoleView { history_cursor: None, input: Seq::empty(), ..old(self)@ }
                },
            }),
    {
        if let Some(current_index) = self.history_index {
            if current_index < self.history.len() - 1 {
                let new_index = current_index + 1;
                self.history_index = Some(new_index);
                self.input_buffer = self.history[new_index].clone();
            } else {
                self.history_index = None;
                self.input_buffer = String::new();
            }
        }
    }

    fn push_special(results: &mut Vec<String>, special: &str, guard: &str, prefix: &String)
        ensures
            views(final(results)@) == add_special(views(old(results)@), special@, guard@, prefix@),
    {
        let matches = starts_with(special, prefix.as_str());
        let mut present = false;
        let mut k: usize = 0;
        while k < results.len()
            invariant
                k <= results.len(),
                present == views(results@).subrange(0, k as int).contains(guard@),
            decreases results.len() - k,
        {
            let same = str_eq(results[k].as_str(), guard);
            proof {
                let pre = views(results@).subrange(0, k as int);
                let post = views(results@).subrange(0, k + 1);
                assert(post =~= pre.push(results@[k as int]@));
                if same {
                    assert(post[k as int] == guard@);
                }
                if post.contains(guard@) && !same {
                    let j = choose|j: int| 0 <= j < post.len() && post[j] == guard@;
                    assert(pre[j] == guard@);
                }
            }
            if same {
                present = true;
            }
            k = k + 1;
        }
        assert(views(results@).subrange(0, k as int) =~= views(results@));
        if matches && !present {
            let ghost pre = results@;
            results.push(owned(special));
            assert(views(results@) =~= views(pre).push(special@));
        }
    }

    /// The newest messages, newest first, at most `max_lines` of them: what
    /// fits above the input line.
    pub fn recent_messages(&self, max_lines: usize) -> (r: Vec<String>)
        ensures
            r@.len() == (if max_lines < self@.msgs.len() { max_lines as nat } else { self@.msgs.len() }),
            forall|k: int| 0 <= k < r@.len() ==> #[trigger] r@[k]@ == self@.msgs[self@.msgs.len() - 1 - k],
    {
        let n = self.messages.len();
        let mut r: Vec<String> = Vec::new();
        let mut k: usize = 0;
        while k < n && k < max_lines
            invariant
                n == self.messages@.len(),
                n == self@.msgs.len(),
                k <= n,
                k <= max_lines,
                r@.len() == k,
                forall|m: int| 0 <= m < k ==> #[trigger] r@[m]@ == self@.msgs[n - 1 - m],
            decreases n - k,
        {
            let ghost old_r = r@;
            r.push(self.messages[n - 1 - k].clone());
            proof {
                assert(self@.msgs[n - 1 - k] == self.messages@[n - 1 - k]@);
                assert forall|m: int| 0 <= m < k + 1 implies #[trigger] r@[m]@ == self@.msgs[n - 1 - m] by {
                    if m < k {
                        assert(r@[m] == old_r[m]);
                    }
                }
            }
            k = k + 1;
        }
        r
    }

    /// The line of suggestions shown under the input: the first sixteen
    /// suggestions, the highlighted one in brackets, two spaces apart.
    pub fn suggestion_strip(&self) -> (r: String)
        ensures
            r@ == strip_text(suggestions(self@), self@.suggestion_cursor,
                if suggestions(self@).len() < 16 { suggestions(self@).len() as int } else { 16 }),
    {
        let all = self.matching_commands();
        let ghost ms = views(all@);
        let count: usize = if all.len() < 16 { all.len() } else { 16 };
        let mut out = String::new();
        let mut i: usize = 0;
        proof {
            assert(out@ =~= Seq::<char>::empty());
        }
        while i < count
            invariant
                count <= all@.len(),
                ms == views(all@),
                ms == suggestions(self@),
                i <= count,
                out@ == strip_text(ms, self@.suggestion_cursor, i as int),
            decreases count - i,
        {
            let item = if self.suggestion_index == Some(i) {
                let a = concat("[", all[i].as_str());
                concat(a.as_str(), "]")
            } else {
                owned(all[i].as_str())
            };
            proof {
                assert(ms[i as int] == all@[i as int]@);
                assert(item@ == strip_item(ms[i as int], i as int, self@.suggestion_cursor));
            }
            if i == 0 {
                out = item;
            } else {
                let a = concat(out.as_str(), "  ");
                out = concat(a.as_str(), item.as_str());
            }
            i = i + 1;
        }
        out
    }

    /// The suggestions for the current input line, sorted: empty when the
    /// trimmed input is empty.
    pub fn matching_commands(&self) -> (r: Vec<String>)
        ensures
            views(r@) == suggestions(self@),
    {
        let trimmed = trimmed(self.input_buffer.as_str());
        let prefix = to_lowercase(trimmed.as_str());
        if prefix.as_str().unicode_len() == 0 {
            let empty: Vec<String> = Vec::new();
            assert(views(empty@) =~= Seq::<Seq<char>>::empty());
            return empty;
        }
        let mut results: Vec<String> = Vec::new();
        let ghost all = self@.names + self@.extra_names;
        let mut i: usize = 0;
        while i < self.command_order.len()
            invariant
                all == self@.names + self@.extra_names,
                i <= self.command_order@.len(),
                views(results@) == with_prefix(all.subrange(0, i as int), prefix@),
            decreases self.command_order@.len() - i,
        {
            let name = &self.command_order[i];
            proof {
                assert(all[i as int] == name@);
                assert(all.subrange(0, i + 1).drop_last() =~= all.subrange(0, i as int));
                assert(all.subrange(0, i + 1).last() == name@);
            }
            if starts_with(name.as_str(), prefix.as_str()) {
                let ghost pre = results@;
                results.push(name.clone());
                assert(views(results@) =~= views(pre).push(name@));
            }
            i = i + 1;
        }
        let ghost n1 = self.command_order@.len() as int;
        let mut j: usize = 0;
        while j < self.suggestion_names.len()
            invariant
                all == self@.names + self@.extra_names,
                n1 == self@.names.len(),
                j <= self.suggestion_names@.len(),
                views(results@) == with_prefix(all.subrange(0, n1 + j), prefix@),
            decreases self.suggestion_names@.len() - j,
        {
            let name = &self.suggestion_names[j];
            proof {
                assert(all[n1 + j] == name@);
                assert(all.subrange(0, n1 + j + 1).drop_last() =~= all.subrange(0, n1 + j));
                assert(all.subrange(0, n1 + j + 1).last() == name@);
            }
            if starts_with(name.as_str(), prefix.as_str()) {
                let ghost pre = results@;
                results.push(name.clone());
                assert(views(results@) =~= views(pre).push(name@));
            }
            j = j + 1;
        }
        assert(all.subrange(0, n1 + j) =~= all);
        Self::push_special(&mut results, "help", "help", &prefix);
        Self::push_special(&mut results, "fps", "fps", &prefix);
        Self::push_special(&mut results, "quit", "quit", &prefix);
        Self::push_special(&mut results, "cls", "clear", &prefix);
        Self::push_special(&mut results, "editor", "editor", &prefix);
        let ghost cands = views(results@);
        let sorted = sort_strings(results);
        proof {
            let target = cands.sort_by(text_le());
            lemma_text_le_total_ordering();
            cands.lemma_sort_by_ensures(text_le());
            lemma_sorted_text_unique(views(sorted@), target);
        }
        sorted
    }

    /// Moves the suggestion cursor forward (wrapping) and puts the selected
    /// suggestion, followed by a space, on the input line. With no
    /// suggestions the cursor is cleared and nothing is returned.
    pub fn advance_suggestion(&mut self) -> (r: Option<String>)
        requires
            old(self).wf(),
        ensures
            final(self).wf(),
            final(self).entries() == old(self).entries(),
            ({
                let m = suggestions(old(self)@);
                if m.len() == 0 {
                    r is None && final(self)@ == (ConsoleView { suggestion_cursor: None, ..old(self)@ })
                } else {
                    let k = next_cursor(old(self)@.suggestion_cursor, m.len());
                    &&& r matches Some(sel) && sel@ == m[k as int]
                    &&& final(self)@ == (ConsoleView { suggestion_cursor: Some(k), input: m[k as int] + " "@, ..old(self)@ })
                }
            }),
    {
        let matches = self.matching_commands();
        let len = matches.len();
        if len == 0 {
            self.suggestion_index = None;
            return None;
        }
        let new_index = match self.suggestion_index {
            Some(i) => if i % len == len - 1 { 0 } else { i % len + 1 },
            None => 0,
        };
        proof {
            if let Some(i) = old(self).suggestion_index {
                lemma_wrap_next(i as int, len as int);
            }
        }
        self.suggestion_index = Some(new_index);
        let selected = matches[new_index].clone();
        self.input_buffer = concat(selected.as_str(), " ");
        Some(selected)
    }

    /// Moves the suggestion cursor forward (wrapping) without touching the input line.
    pub fn select_next_suggestion(&mut self)
        requires
            old(self).wf(),
        ensures
            final(self).wf(),
            final(self).entries() == old(self).entries(),
            ({
                let m = suggestions(old(self)@);
                if m.len() == 0 {
                    final(self)@ == (ConsoleView { suggestion_cursor: None, ..old(self)@ })
                } else {
                    final(self)@ == (ConsoleView { suggestion_cursor: Some(next_cursor(old(self)@.suggestion_cursor, m.len())), ..old(self)@ })
                }
            }),
    {
        let matches = self.matching_commands();
        let len = matches.len();
        if len == 0 {
            self.suggestion_index = None;
            return;
        }
        let new_index = match self.suggestion_index {
            Some(i) => if i % len == len - 1 { 0 } else { i % len + 1 },
            None => 0,
        };
        proof {
            if let Some(i) = old(self).suggestion_index {
                lemma_wrap_next(i as int, len as int);
            }
        }
        self.suggestion_index = Some(new_index);
    }

    /// Moves the suggestion cursor backward (wrapping) without touching the input line.
    pub fn select_previous_suggestion(&mut self)
        requires
            old(self).wf(),
        ensures
            final(self).wf(),
            final(self).entries() == old(self).entries(),
            ({
                let m = suggestions(old(self)@);
                if m.len() == 0 {
                    final(self)@ == (ConsoleView { suggestion_cursor: None, ..old(self)@ })
                } else {
                    final(self)@ == (ConsoleView { suggestion_cursor: Some(previous_cursor(old(self)@.suggestion_cursor, m.len())), ..old(self)@ })
                }
            }),
    {
        let matches = self.matching_commands();
        let len = matches.len();
        if len == 0 {
            self.suggestion_index = None;
            return;
        }
        let new_index = match self.suggestion_index {
            Some(i) => if i % len == 0 { len - 1 } else { i % len - 1 },
            None => len - 1,
        };
        proof {
            if let Some(i) = old(self).suggestion_index {
                lemma_wrap_previous(i as int, len as int);
            }
        }
        self.suggestion_index = Some(new_index);
    }

    /// The `help` listing for the given (name, description) pairs of the
    /// registered commands: the pairs plus `help`, `fps`, `quit` and, when a
    /// `clear` entry is present, `cls`, sorted by name.
    pub fn describe_commands(named: Vec<(String, String)>) -> (r: Vec<(String, String)>)
        ensures
            sorted_by_first(pair_views(r@)),
            pair_views(r@).to_multiset() == described(pair_views(named@)).to_multiset(),
    {
        let ghost nv = pair_views(named@);
        let mut result = named;
        result.push((owned("help"), owned("Show help for commands")));
        result.push((owned("fps"), owned("Toggle FPS counter overlay")));
        result.push((owned("quit"), owned("Close the console")));
        let ghost base = nv + seq![
            ("help"@, "Show help for commands"@),
            ("fps"@, "Toggle FPS counter overlay"@),
            ("quit"@, "Close the console"@),
        ];
        assert(pair_views(result@) =~= base);
        let mut pos: usize = 0;
        let mut found = false;
        while pos < result.len() && !found
            invariant
                pos <= result.len(),
                pair_views(result@) == base,
                forall|k: int| 0 <= k < pos ==> base[k].0 != "clear"@,
                found ==> pos < result.len() && base[pos as int].0 == "clear"@,
            decreases result.len() - pos + (if found { 0int } else { 1int }),
        {
            if str_eq(result[pos].0.as_str(), "clear") {
                found = true;
            } else {
                pos = pos + 1;
            }
        }
        if found {
            let alias = concat(result[pos].1.as_str(), " (alias)");
            proof {
                assert(base[pos as int].0 == "clear"@);
                let c = choose|i: int| 0 <= i < base.len() && #[trigger] base[i].0 == "clear"@ && (forall|k: int| 0 <= k < i ==> base[k].0 != "clear"@);
                if c < pos {
                } else if c > pos {
                    assert(base[pos as int].0 != "clear"@);
                }
                assert(c == pos);
            }
            result.push((owned("cls"), alias));
            assert(pair_views(result@) =~= described(nv));
        } else {
            assert(pair_views(result@) =~= described(nv));
        }
        sort_pairs_by_first(result)
    }

    /// The `help` listing: each registered command with its description,
    /// `help`, `fps`, `quit` and `cls` when `clear` is registered, sorted by name.
    pub fn all_command_descriptions(&self) -> (r: Vec<(String, String)>)
        requires
            self.wf(),
        ensures
            is_help_listing(self@.names, self.entries(), pair_views(r@)),
    {
        let mut named: Vec<(String, String)> = Vec::new();
        let mut k: usize = 0;
        while k < self.command_order.len()
            invariant
                self.wf(),
                k <= self.command_order@.len(),
                pair_views(named@).len() == k,
                forall|j: int| 0 <= j < k ==> #[trigger] pair_views(named@)[j].0 == self@.names[j],
                forall|j: int| 0 <= j < k ==> (#[trigger] self.entries()[j] matches CommandEntry::Builtin(b) ==> pair_views(named@)[j].1 == builtin_description(b)),
            decreases self.command_order@.len() - k,
        {
            let desc = self.commands[k].description();
            let ghost pre = named@;
            named.push((self.command_order[k].clone(), desc));
            assert(pair_views(named@) =~= pair_views(pre).push((self@.names[k as int], desc@)));
            k = k + 1;
        }
        let ghost nv = pair_views(named@);
        let r = Self::describe_commands(named);
        assert(names_described(self@.names, self.entries(), nv));
        r
    }

    fn format_help_line(name: &String, desc: &String) -> (r: String)
        ensures
            r@ == help_line((name@, desc@)),
    {
        let mut line = concat("  ", name.as_str());
        let n = name.as_str().unicode_len();
        let mut k = n;
        proof {
            reveal_strlit("  ");
        }
        while k < 12
            invariant
                n == name@.len(),
                n <= k,
                k <= 12 || k == n,
                line@ == "  "@ + name@ + Seq::new((k - n) as nat, |i: int| ' '),
            decreases 12 - k,
        {
            let ghost pre = line@;
            push_char(&mut line, ' ');
            assert(line@ =~= "  "@ + name@ + Seq::new((k + 1 - n) as nat, |i: int| ' '));
            k = k + 1;
        }
        proof {
            if n >= 12 {
                assert(Seq::new((k - n) as nat, |i: int| ' ') =~= Seq::<char>::empty());
                assert(line@ =~= "  "@ + pad_name(name@));
            } else {
                assert(line@ =~= "  "@ + pad_name(name@));
            }
        }
        let with_space = concat(line.as_str(), " ");
        let r = concat(with_space.as_str(), desc.as_str());
        assert(r@ =~= help_line((name@, desc@)));
        r
    }

    /// Runs a command line. Returns false when its command word names no
    /// command (the console is then unchanged), true otherwise (an empty line
    /// counts as handled).
    pub fn try_execute(&mut self, command: &str) -> (r: bool)
        requires
            old(self).wf(),
        ensures
            final(self).wf(),
            execute_effect(old(self)@, old(self).entries(), command@, final(self)@, final(self).entries(), r),
    {
        let t = trimmed(command);
        if t.as_str().unicode_len() == 0 {
            return true;
        }
        proof {
            crate::text::lemma_trimmed_has_word(command@);
        }
        let parts = split_whitespace(t.as_str());
        assert(views(parts@).len() > 0);
        let cmd = to_lowercase(parts[0].as_str());
        let args = tail_strings(&parts, 1);
        assert(cmd@ == command_word(command@));
        assert(views(args@) =~= command_args(command@));
        let ghost v = self@;
        let ghost e = self.entries();
        if str_eq(cmd.as_str(), "help") {
            self.run_help(&args);
            return true;
        }
        if str_eq(cmd.as_str(), "fps") {
            self.show_fps = !self.show_fps;
            if self.show_fps {
                self.add_message(owned("FPS counter: ON"));
            } else {
                self.add_message(owned("FPS counter: OFF"));
            }
            return true;
        }
        if str_eq(cmd.as_str(), "quit") || str_eq(cmd.as_str(), "exit") {
            self.is_visible = false;
            self.add_message(owned("Console closed."));
            return true;
        }
        if str_eq(cmd.as_str(), "cls") {
            self.clear_messages();
            self.add_message(owned("Console cleared."));
            return true;
        }
        match self.find_command(cmd.as_str()) {
            Some(k) => {
                self.run_registered(k, &cmd, &args);
                true
            },
            None => false,
        }
    }

    /// Runs a command line, logging an unknown-command message when its
    /// command word names no command. A blank line does nothing.
    pub fn execute_command(&mut self, command: &str)
        requires
            old(self).wf(),
        ensures
            final(self).wf(),
            command_effect(old(self)@, old(self).entries(), command@, final(self)@, final(self).entries()),
    {
        let t = trimmed(command);
        if t.as_str().unicode_len() == 0 {
            return;
        }
        let found = self.try_execute(t.as_str());
        if !found {
            let head = concat("Unknown command: '", t.as_str());
            let line = concat(head.as_str(), "'. Type 'help' for commands.");
            self.add_message(line);
        }
    }

    fn run_help(&mut self, args: &Vec<String>)
        requires
            old(self).wf(),
        ensures
            final(self).wf(),
            final(self).entries() == old(self).entries(),
            views(args@).len() == 0 ==> exists|listing: Seq<(Seq<char>, Seq<char>)>| #[trigger] is_help_listing(old(self)@.names, old(self).entries(), listing)
                && final(self)@ == with_msgs(old(self)@, push_all_capped(old(self)@.msgs, seq!["Available commands:"@] + listing.map_values(|p: (Seq<char>, Seq<char>)| help_line(p)), MAX_MESSAGES as nat)),
            views(args@).len() > 0 ==> topic_help_effect(old(self)@, old(self).entries(), views(args@)[0], final(self)@),
    {
        let ghost v = self@;
        let ghost e = self.entries();
        if args.len() == 0 {
            let entries = self.all_command_descriptions();
            self.add_message(owned("Available commands:"));
            let mut i: usize = 0;
            let ghost listing = pair_views(entries@);
            let ghost lines = listing.map_values(|p: (Seq<char>, Seq<char>)| help_line(p));
            let ghost all = seq!["Available commands:"@] + lines;
            proof {
                assert(all.subrange(0, 1) =~= seq!["Available commands:"@]);
                lemma_push_all_one(v.msgs, "Available commands:"@, MAX_MESSAGES as nat);
            }
            while i < entries.len()
                invariant
                    self.wf(),
                    i <= entries@.len(),
                    listing == pair_views(entries@),
                    lines == listing.map_values(|p: (Seq<char>, Seq<char>)| help_line(p)),
                    all == seq!["Available commands:"@] + lines,
                    self.entries() == e,
                    self@ == with_msgs(v, push_all_capped(v.msgs, all.subrange(0, i + 1), MAX_MESSAGES as nat)),
                decreases entries@.len() - i,
            {
                let line = Self::format_help_line(&entries[i].0, &entries[i].1);
                proof {
                    assert(all.subrange(0, i + 2).drop_last() =~= all.subrange(0, i + 1));
                    assert(all.subrange(0, i + 2).last() == line@);
                }
                self.add_message(line);
                i = i + 1;
            }
            assert(all.subrange(0, i + 1) =~= all);
        } else {
            let topic = &args[0];
            assert(topic@ == views(args@)[0]);
            if str_eq(topic.as_str(), "help") {
                self.add_message(owned("help [cmd] - Show help for a specific command."));
                proof {
                    lemma_push_all_one(v.msgs, "help [cmd] - Show help for a specific command."@, MAX_MESSAGES as nat);
                }
            } else if str_eq(topic.as_str(), "fps") {
                self.add_message(owned("fps - Toggle the FPS counter overlay."));
                self.add_message(owned("Shows framerate in the top-left corner."));
                proof {
                    lemma_push_all_two(v.msgs, "fps - Toggle the FPS counter overlay."@, "Shows framerate in the top-left corner."@, MAX_MESSAGES as nat);
                }
            } else if str_eq(topic.as_str(), "quit") || str_eq(topic.as_str(), "exit") {
                self.add_message(owned("quit / exit - Close the console."));
                proof {
                    lemma_push_all_one(v.msgs, "quit / exit - Close the console."@, MAX_MESSAGES as nat);
                }
            } else {
                match self.find_command(topic.as_str()) {
                    Some(k) => {
                        let name = self.commands[k].name();
                        let desc = self.commands[k].description();
                        let help_lines = self.commands[k].detailed_help();
                        if help_lines.len() == 0 {
                            let head = concat(name.as_str(), ": ");
                            let line = concat(head.as_str(), desc.as_str());
                            self.add_message(line);
                            proof {
                                lemma_push_all_one(v.msgs, line@, MAX_MESSAGES as nat);
                                if let CommandEntry::Builtin(b) = e[k as int] {
                                    assert(views(help_lines@).len() == 0);
                                    assert(builtin_help(b).len() > 0);
                                }
                            }
                        } else {
                            let ghost hv = views(help_lines@);
                            self.add_messages(help_lines);
                            assert(self@ == with_msgs(v, push_all_capped(v.msgs, hv, MAX_MESSAGES as nat)));
                        }
                    },
                    None => {
                        let head = concat("No help for '", topic.as_str());
                        let line = concat(head.as_str(), "'.");
                        self.add_message(line);
                    },
                }
            }
        }
    }

    fn run_registered(&mut self, k: usize, cmd: &String, args: &Vec<String>)
        requires
            old(self).wf(),
            k < old(self)@.names.len(),
            old(self)@.names[k as int] == cmd@,
            old(self)@.names.index_of(cmd@) == k,
        ensures
            final(self).wf(),
            registered_effect(old(self)@, old(self).entries(), k as int, cmd@, views(args@), final(self)@, final(self).entries()),
    {
        let ghost v = self@;
        let ghost e = self.entries();
        if str_eq(cmd.as_str(), "clear") {
            self.clear_messages();
        }
        let ghost start = self@.msgs;
        let ghost before = self.commands@;
        let mut entry = self.commands.remove(k);
        let outs = entry.execute(args);
        self.commands.insert(k, entry);
        proof {
            assert(before == e);
            assert(self.commands@ =~= e.update(k as int, self.commands@[k as int]));
            
            if e[k as int] is Builtin {
                assert(self.commands@ =~= e);
            }
        }
        let ghost ov = views(outs@);
        let ghost new_entries = self.commands@;
        self.add_messages(outs);
        proof {
            assert(self@ == with_msgs(v, push_all_capped(start, ov, MAX_MESSAGES as nat)));
            assert(self.entries() == new_entries);
            assert(start == log_before_run(cmd@, v.msgs));
            match e[k as int] {
                CommandEntry::Builtin(b) => {
                    assert(new_entries == e);
                    assert(ov == builtin_output(b, views(args@)));
                },
                CommandEntry::Custom(_) => {
                    assert(new_entries.len() == e.len());
                    assert(new_entries[k as int] is Custom);
                    assert(forall|j: int| 0 <= j < e.len() && j != k ==> new_entries[j] == e[j]);
                    assert(exists|outs: Seq<Seq<char>>| self@ == with_msgs(v, #[trigger] push_all_capped(start, outs, MAX_MESSAGES as nat)));
                },
            }
        }
    }

    /// Submits the input line: records it in the history, echoes it after
    /// "> ", runs it and clears the line. An empty line does nothing.
    pub fn submit_input(&mut self)
        requires
            old(self).wf(),
        ensures
            final(self).wf(),
            submit_effect(old(self)@, old(self).entries(), final(self)@, final(self).entries()),
    {
        if self.input_buffer.as_str().unicode_len() == 0 {
            return;
        }
        let ghost v = self@;
        let cmd = self.input_buffer.clone();
        self.push_history(cmd.as_str());
        let echo = concat("> ", cmd.as_str());
        self.add_message(echo);
        assert(self@ == submitted_view(v));
        let ghost e = self.entries();
        self.execute_command(cmd.as_str());
        let ghost v1 = self@;
        self.input_buffer = String::new();
        assert(command_effect(submitted_view(v), e, v.input, v1, self.entries()));
        assert(self@ == (ConsoleView { input: Seq::empty(), ..v1 }));
    }

    fn append_printable(&mut self, text: &String)
        requires
            old(self).wf(),
        ensures
            final(self).wf(),
            final(self).entries() == old(self).entries(),
            final(self)@ == (ConsoleView { input: old(self)@.input + printable(text@), ..old(self)@ }),
    {
        let chars = chars_of(text.as_str());
        let mut i: usize = 0;
        while i < chars.len()
            invariant
                self.wf(),
                i <= chars@.len(),
                chars@ == text@,
                self.entries() == old(self).entries(),
                self@ == (ConsoleView { input: old(self)@.input + printable(chars@.subrange(0, i as int)), ..old(self)@ }),
            decreases chars@.len() - i,
        {
            let ch = chars[i];
            proof {
                assert(chars@.subrange(0, i + 1).drop_last() =~= chars@.subrange(0, i as int));
                assert(chars@.subrange(0, i + 1).last() == ch);
            }
            if ch >= ' ' && ch <= '~' {
                push_char(&mut self.input_buffer, ch);
                assert(self@.input =~= old(self)@.input + printable(chars@.subrange(0, i + 1)));
            }
            i = i + 1;
        }
        assert(chars@.subrange(0, i as int) =~= text@);
    }

    /// Reacts to a key event. The backquote key toggles the console (a
    /// repeated press is ignored) and greets when it opens. While the console
    /// is hidden, or for a released key, nothing else happens. Enter submits
    /// the line, Backspace deletes the last character, Escape hides the
    /// console, the up and down arrows walk the history, Tab completes the
    /// next suggestion and the left and right arrows move through the
    /// suggestions. Any other key types the printable ASCII characters of `text`.
    pub fn handle_keyboard(&mut self, key: ConsoleKey, text: Option<String>, pressed: bool, repeat: bool)
        requires
            old(self).wf(),
        ensures
            final(self).wf(),
            keyboard_effect(old(self)@, old(self).entries(), final(self)@, final(self).entries(), key, text, pressed, repeat),
    {
        if pressed && key == ConsoleKey::Backquote {
            if !repeat {
                self.toggle();
                if self.is_visible {
                    self.add_message(owned("Console opened. Type 'help' for available commands."));
                }
            }
            return;
        }
        if !self.is_visible {
            return;
        }
        if !pressed {
            return;
        }
        match key {
            ConsoleKey::Enter => {
                self.submit_input();
                return;
            },
            ConsoleKey::Backspace => {
                let _ = pop_char(&mut self.input_buffer);
                self.reset_suggestion();
                return;
            },
            ConsoleKey::Escape => {
                self.is_visible = false;
                self.input_buffer = String::new();
                self.suggestion_index = None;
                return;
            },
            ConsoleKey::ArrowUp => {
                self.navigate_history_up();
                self.reset_suggestion();
                return;
            },
            ConsoleKey::ArrowDown => {
                self.navigate_history_down();
                self.reset_suggestion();
                return;
            },
            ConsoleKey::Tab => {
                let _ = self.advance_suggestion();
                return;
            },
            ConsoleKey::ArrowRight => {
                self.select_next_suggestion();
                return;
            },
            ConsoleKey::ArrowLeft => {
                self.select_previous_suggestion();
                return;
            },
            _ => {},
        }
        if let Some(t) = &text {
            self.append_printable(t);
            self.reset_suggestion();
        }
    }
}

} // verus!
