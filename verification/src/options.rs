//! The command line.

use vstd::prelude::*;

use crate::bench::{all_passes, law_passes_are_told_apart, short, PassKind};
use crate::number::{decimal, law_decimals_read_back, parse_unsigned, unsigned_within};
use crate::text::{
    cut_first, fields, first_from, joined, law_joined_pieces_are_the_fields, law_trimmed_text_stays, same, split,
    split_once, trim, trimmed,
};
use crate::theme::{named_mode, parse as parse_theme, Mode};
use crate::time::{Duration, SECOND};

verus! {

/// Seconds that a run takes where nothing else is asked for.
pub const DEFAULT_BUDGET_SECS: u64 = 40;

/// A text in quotes, with what cannot be printed escaped, as `Debug` writes it.
pub uninterp spec fn quoted_form(s: Seq<char>) -> Seq<char>;

/// The `Debug` form of a string, as `format!` writes it for `{:?}`. Which
/// characters are escaped is not stated: that rests on tables of Unicode.
#[verifier::external_body]
fn quoted(s: &str) -> (r: String)
    ensures
        r@ == quoted_form(s@),
{
    format!("{:?}", s)
}

/// What is said of an unknown pass, given its quoted name.
pub fn unknown_pass(name: &str) -> (r: String)
    ensures
        r@ == "unknown pass "@ + name@,
{
    let mut s = "unknown pass ".to_string();
    s.append(name);
    s
}

/// What is said of an unknown option, given its quoted name.
pub fn unknown_option(name: &str) -> (r: String)
    ensures
        r@ == "unknown option "@ + name@,
{
    let mut s = "unknown option ".to_string();
    s.append(name);
    s
}

/// What is said of an unknown theme, given its quoted name.
pub fn unknown_theme(name: &str) -> (r: String)
    ensures
        r@ == "unknown theme "@ + name@ + " (auto, dark or light)"@,
{
    let mut s = "unknown theme ".to_string();
    s.append(name);
    s.append(" (auto, dark or light)");
    s
}

/// The pass of a name.
pub open spec fn pass_named(name: Seq<char>) -> Option<PassKind> {
    if name == short(PassKind::SeqRead) {
        Some(PassKind::SeqRead)
    } else if name == short(PassKind::RandRead) {
        Some(PassKind::RandRead)
    } else if name == short(PassKind::SeqWrite) {
        Some(PassKind::SeqWrite)
    } else if name == short(PassKind::RandWrite) {
        Some(PassKind::RandWrite)
    } else {
        None
    }
}

fn find_pass(name: &str) -> (r: Option<PassKind>)
    ensures
        r == pass_named(name@),
{
    if same(name, PassKind::SeqRead.short()) {
        Some(PassKind::SeqRead)
    } else if same(name, PassKind::RandRead.short()) {
        Some(PassKind::RandRead)
    } else if same(name, PassKind::SeqWrite.short()) {
        Some(PassKind::SeqWrite)
    } else if same(name, PassKind::RandWrite.short()) {
        Some(PassKind::RandWrite)
    } else {
        None
    }
}

/// The passes that some fields name, each once, in the order in which they are
/// first named. Empty fields are passed over; the first unknown name is an error.
pub open spec fn passes_from(list: Seq<Seq<char>>) -> Result<Seq<PassKind>, Seq<char>>
    decreases list.len(),
{
    if list.len() == 0 {
        Ok(Seq::empty())
    } else {
        let name = trimmed(list.last());
        match passes_from(list.drop_last()) {
            Err(e) => Err(e),
            Ok(init) => if name.len() == 0 {
                Ok(init)
            } else {
                match pass_named(name) {
                    None => Err("unknown pass "@ + quoted_form(name)),
                    Some(kind) => Ok(
                        if init.contains(kind) {
                            init
                        } else {
                            init.push(kind)
                        },
                    ),
                }
            },
        }
    }
}

/// The passes that a list names. There has to be one.
pub open spec fn passes_named(s: Seq<char>) -> Result<Seq<PassKind>, Seq<char>> {
    match passes_from(fields(s, ',')) {
        Err(e) => Err(e),
        Ok(list) => if list.len() == 0 {
            Err("no passes selected"@)
        } else {
            Ok(list)
        },
    }
}

proof fn lemma_first_error(list: Seq<Seq<char>>, i: int)
    requires
        0 <= i <= list.len(),
        passes_from(list.take(i)) is Err,
    ensures
        passes_from(list) == passes_from(list.take(i)),
    decreases list.len() - i,
{
    if i < list.len() {
        assert(list.take(i + 1).drop_last() =~= list.take(i));
        lemma_first_error(list, i + 1);
    } else {
        assert(list.take(i) =~= list);
    }
}

fn contains(list: &Vec<PassKind>, kind: PassKind) -> (r: bool)
    ensures
        r == list@.contains(kind),
{
    let mut i: usize = 0;
    while i < list.len()
        invariant
            i <= list@.len(),
            forall|j: int| 0 <= j < i ==> list@[j] != kind,
        decreases list@.len() - i,
    {
        if list[i] == kind {
            assert(list@[i as int] == kind);
            return true;
        }
        i += 1;
    }
    false
}

/// The passes that a list names, separated by commas.
pub fn parse_passes(s: &str) -> (r: Result<Vec<PassKind>, String>)
    ensures
        match r {
            Ok(list) => passes_named(s@) == Ok::<Seq<PassKind>, Seq<char>>(list@),
            Err(e) => passes_named(s@) == Err::<Seq<PassKind>, Seq<char>>(e@),
        },
{
    let parts = split(s, ',');
    let ghost all = parts.deep_view();
    let mut out: Vec<PassKind> = Vec::new();
    let mut i: usize = 0;
    assert(out@ =~= Seq::<PassKind>::empty());
    while i < parts.len()
        invariant
            i <= parts@.len(),
            all == parts.deep_view(),
            all == fields(s@, ','),
            all.len() == parts@.len(),
            passes_from(all.take(i as int)) == Ok::<Seq<PassKind>, Seq<char>>(out@),
        decreases parts@.len() - i,
    {
        assert(all.take(i + 1).drop_last() =~= all.take(i as int));
        assert(all.take(i + 1).last() == parts@[i as int]@);
        let name = trim(parts[i].as_str());
        if !name.as_str().is_empty() {
            match find_pass(name.as_str()) {
                None => {
                    proof {
                        lemma_first_error(all, i + 1);
                    }
                    return Err(unknown_pass(quoted(name.as_str()).as_str()));
                },
                Some(kind) => {
                    if !contains(&out, kind) {
                        out.push(kind);
                    }
                },
            }
        }
        i += 1;
    }
    assert(all.take(i as int) =~= all);
    if out.len() == 0 {
        return Err("no passes selected".to_string());
    }
    Ok(out)
}

/// A list names each pass once at most, and so no more passes than there are.
pub proof fn law_passes_are_named_once(list: Seq<Seq<char>>)
    requires
        passes_from(list) is Ok,
    ensures
        passes_from(list)->Ok_0.no_duplicates(),
        passes_from(list)->Ok_0.len() <= all_passes().len(),
    decreases list.len(),
{
    if list.len() > 0 {
        law_passes_are_named_once(list.drop_last());
    }
    lemma_few(passes_from(list)->Ok_0);
}

proof fn lemma_few(s: Seq<PassKind>)
    requires
        s.no_duplicates(),
    ensures
        s.len() <= 4,
{
    if s.len() > 4 {
        let number = |k: PassKind|
            match k {
                PassKind::SeqRead => 0int,
                PassKind::RandRead => 1int,
                PassKind::SeqWrite => 2int,
                PassKind::RandWrite => 3int,
            };
        assert(s[0] != s[1] && s[0] != s[2] && s[0] != s[3] && s[0] != s[4]);
        assert(s[1] != s[2] && s[1] != s[3] && s[1] != s[4]);
        assert(s[2] != s[3] && s[2] != s[4]);
        assert(s[3] != s[4]);
        assert(number(s[0]) + number(s[1]) + number(s[2]) + number(s[3]) == 6);
    }
}

/// What is asked for on the command line.
#[derive(Debug)]
pub struct Options {
    pub target: Option<String>,
    pub budget: Duration,
    pub passes: Vec<PassKind>,
    pub direct: bool,
    pub theme: Mode,
    pub list: bool,
    pub json: bool,
}

/// The values of what is asked for.
pub ghost struct OptionsView {
    pub target: Option<Seq<char>>,
    pub budget: Duration,
    pub passes: Seq<PassKind>,
    pub direct: bool,
    pub theme: Mode,
    pub list: bool,
    pub json: bool,
}

impl View for Options {
    type V = OptionsView;

    open spec fn view(&self) -> OptionsView {
        OptionsView {
            target: self.target.deep_view(),
            budget: self.budget,
            passes: self.passes@,
            direct: self.direct,
            theme: self.theme,
            list: self.list,
            json: self.json,
        }
    }
}

/// What the command line comes to.
#[derive(Debug)]
pub enum Request {
    Help,
    Version,
    Run(Options),
}

/// The values of what the command line comes to.
pub ghost enum RequestView {
    Help,
    Version,
    Run(OptionsView),
}

impl View for Request {
    type V = RequestView;

    open spec fn view(&self) -> RequestView {
        match self {
            Request::Help => RequestView::Help,
            Request::Version => RequestView::Version,
            Request::Run(o) => RequestView::Run(o@),
        }
    }
}

/// An option.
#[derive(Debug, Clone, Copy, PartialEq, Eq, Structural)]
pub enum Flag {
    Help,
    Version,
    Target,
    Budget,
    Passes,
    NoDirect,
    Direct,
    Theme,
    List,
    Json,
}

/// The option of a name.
pub open spec fn flag_named(s: Seq<char>) -> Option<Flag> {
    if s == "-h"@ || s == "--help"@ {
        Some(Flag::Help)
    } else if s == "-V"@ || s == "--version"@ {
        Some(Flag::Version)
    } else if s == "-t"@ || s == "--target"@ {
        Some(Flag::Target)
    } else if s == "-b"@ || s == "--budget"@ {
        Some(Flag::Budget)
    } else if s == "-p"@ || s == "--passes"@ {
        Some(Flag::Passes)
    } else if s == "--no-direct"@ {
        Some(Flag::NoDirect)
    } else if s == "--direct"@ {
        Some(Flag::Direct)
    } else if s == "--theme"@ {
        Some(Flag::Theme)
    } else if s == "-l"@ || s == "--list"@ {
        Some(Flag::List)
    } else if s == "-j"@ || s == "--json"@ {
        Some(Flag::Json)
    } else {
        None
    }
}

fn find_flag(s: &str) -> (r: Option<Flag>)
    ensures
        r == flag_named(s@),
{
    if same(s, "-h") || same(s, "--help") {
        Some(Flag::Help)
    } else if same(s, "-V") || same(s, "--version") {
        Some(Flag::Version)
    } else if same(s, "-t") || same(s, "--target") {
        Some(Flag::Target)
    } else if same(s, "-b") || same(s, "--budget") {
        Some(Flag::Budget)
    } else if same(s, "-p") || same(s, "--passes") {
        Some(Flag::Passes)
    } else if same(s, "--no-direct") {
        Some(Flag::NoDirect)
    } else if same(s, "--direct") {
        Some(Flag::Direct)
    } else if same(s, "--theme") {
        Some(Flag::Theme)
    } else if same(s, "-l") || same(s, "--list") {
        Some(Flag::List)
    } else if same(s, "-j") || same(s, "--json") {
        Some(Flag::Json)
    } else {
        None
    }
}

/// Whether an option has a value.
pub open spec fn has_value(flag: Flag) -> bool {
    flag == Flag::Target || flag == Flag::Budget || flag == Flag::Passes || flag == Flag::Theme
}

/// What is asked for before any option.
pub open spec fn defaults(auto: Mode) -> OptionsView {
    OptionsView {
        target: None,
        budget: Duration { nanos: (DEFAULT_BUDGET_SECS * SECOND) as u64 },
        passes: all_passes(),
        direct: true,
        theme: auto,
        list: false,
        json: false,
    }
}

/// What is asked for with an option without a value as well.
pub open spec fn switched(o: OptionsView, flag: Flag) -> OptionsView {
    match flag {
        Flag::NoDirect => OptionsView { direct: false, ..o },
        Flag::Direct => OptionsView { direct: true, ..o },
        Flag::List => OptionsView { list: true, ..o },
        Flag::Json => OptionsView { json: true, ..o },
        _ => o,
    }
}

/// The budget of a number of seconds.
pub open spec fn budget_of(s: Seq<char>) -> Result<Duration, Seq<char>> {
    match unsigned_within(s, 10, u64::MAX as nat) {
        None => Err("budget must be a whole number of seconds"@),
        Some(secs) => if 5 <= secs <= 600 {
            Ok(Duration { nanos: (secs * SECOND) as u64 })
        } else {
            Err("budget must be between 5 and 600 seconds"@)
        },
    }
}

/// What is asked for with an option and its value as well.
pub open spec fn given(o: OptionsView, flag: Flag, value: Seq<char>, auto: Mode) -> Result<
    OptionsView,
    Seq<char>,
> {
    match flag {
        Flag::Target => Ok(OptionsView { target: Some(value), ..o }),
        Flag::Budget => match budget_of(value) {
            Ok(budget) => Ok(OptionsView { budget, ..o }),
            Err(e) => Err(e),
        },
        Flag::Passes => match passes_named(value) {
            Ok(passes) => Ok(OptionsView { passes, ..o }),
            Err(e) => Err(e),
        },
        Flag::Theme => match named_mode(value, auto) {
            Some(theme) => Ok(OptionsView { theme, ..o }),
            None => Err("unknown theme "@ + quoted_form(value) + " (auto, dark or light)"@),
        },
        _ => Ok(o),
    }
}

/// What the arguments from a position on come to. The value of an option stands
/// behind an equals sign, or is the next argument.
pub open spec fn parsed(args: Seq<Seq<char>>, i: int, o: OptionsView, auto: Mode) -> Result<
    RequestView,
    Seq<char>,
>
    decreases args.len() - i,
{
    if i < 0 || i >= args.len() {
        Ok(RequestView::Run(o))
    } else {
        let (name, inline) = match cut_first(args[i], "="@) {
            Some((name, value)) => (name, Some(value)),
            None => (args[i], None),
        };
        match flag_named(name) {
            None => Err("unknown option "@ + quoted_form(name)),
            Some(Flag::Help) => Ok(RequestView::Help),
            Some(Flag::Version) => Ok(RequestView::Version),
            Some(flag) => if !has_value(flag) {
                parsed(args, i + 1, switched(o, flag), auto)
            } else if inline is Some {
                match given(o, flag, inline->0, auto) {
                    Ok(next) => parsed(args, i + 1, next, auto),
                    Err(e) => Err(e),
                }
            } else if i + 1 < args.len() {
                match given(o, flag, args[i + 1], auto) {
                    Ok(next) => parsed(args, i + 2, next, auto),
                    Err(e) => Err(e),
                }
            } else {
                Err(name + " needs a value"@)
            },
        }
    }
}

/// A result over values.
pub open spec fn outcome(r: Result<Request, String>) -> Result<RequestView, Seq<char>> {
    match r {
        Ok(q) => Ok(q@),
        Err(e) => Err(e@),
    }
}

impl Options {
    fn switch(&mut self, flag: Flag)
        ensures
            final(self)@ == switched(old(self)@, flag),
    {
        match flag {
            Flag::NoDirect => {
                self.direct = false;
            },
            Flag::Direct => {
                self.direct = true;
            },
            Flag::List => {
                self.list = true;
            },
            Flag::Json => {
                self.json = true;
            },
            _ => {},
        }
    }

    fn give(&mut self, flag: Flag, value: String, auto: Mode) -> (r: Result<(), String>)
        ensures
            match r {
                Ok(_) => given(old(self)@, flag, value@, auto) == Ok::<OptionsView, Seq<char>>(final(self)@),
                Err(e) => given(old(self)@, flag, value@, auto) == Err::<OptionsView, Seq<char>>(e@),
            },
    {
        match flag {
            Flag::Target => {
                self.target = Some(value);
            },
            Flag::Budget => {
                let secs: u64 = match parse_unsigned(value.as_str(), 10, u64::MAX) {
                    Some(n) => n,
                    None => {
                        return Err("budget must be a whole number of seconds".to_string());
                    },
                };
                if secs < 5 || secs > 600 {
                    return Err("budget must be between 5 and 600 seconds".to_string());
                }
                self.budget = Duration::from_secs(secs);
            },
            Flag::Passes => match parse_passes(value.as_str()) {
                Ok(list) => {
                    self.passes = list;
                },
                Err(e) => {
                    return Err(e);
                },
            },
            Flag::Theme => match parse_theme(value.as_str(), auto) {
                Some(mode) => {
                    self.theme = mode;
                },
                None => {
                    return Err(unknown_theme(quoted(value.as_str()).as_str()));
                },
            },
            _ => {},
        }
        Ok(())
    }

    /// Reads the arguments. `auto` is the theme that fits the terminal.
    pub fn parse(args: &Vec<String>, auto: Mode) -> (r: Result<Request, String>)
        ensures
            outcome(r) == parsed(args.deep_view(), 0, defaults(auto), auto),
    {
        let ghost all = args.deep_view();
        let mut o = Options {
            target: None,
            budget: Duration::from_secs(DEFAULT_BUDGET_SECS),
            passes: PassKind::all(),
            direct: true,
            theme: auto,
            list: false,
            json: false,
        };
        let mut i: usize = 0;
        let n: usize = args.len();
        while i < n
            invariant
                i <= n,
                n == args@.len(),
                all == args.deep_view(),
                all.len() == args@.len(),
                parsed(all, i as int, o@, auto) == parsed(all, 0, defaults(auto), auto),
            decreases n - i,
        {
            assert(all[i as int] == args@[i as int]@);
            let (name, inline) = match split_once(args[i].as_str(), "=") {
                Some((name, value)) => (name, Some(value)),
                None => (args[i].clone(), None),
            };
            let flag = match find_flag(name.as_str()) {
                None => {
                    return Err(unknown_option(quoted(name.as_str()).as_str()));
                },
                Some(Flag::Help) => {
                    return Ok(Request::Help);
                },
                Some(Flag::Version) => {
                    return Ok(Request::Version);
                },
                Some(flag) => flag,
            };
            match flag {
                Flag::Target | Flag::Budget | Flag::Passes | Flag::Theme => {
                    let value = match inline {
                        Some(v) => v,
                        None => {
                            if n - i < 2 {
                                let mut e = name;
                                e.append(" needs a value");
                                return Err(e);
                            }
                            i = i + 1;
                            assert(all[i as int] == args@[i as int]@);
                            args[i].clone()
                        },
                    };
                    match o.give(flag, value, auto) {
                        Ok(_) => {},
                        Err(e) => {
                            return Err(e);
                        },
                    }
                },
                _ => {
                    o.switch(flag);
                },
            }
            i = i + 1;
        }
        Ok(Request::Run(o))
    }
}

/// Both ways to write the value of an option come to the same.
pub proof fn law_values_may_be_inline_or_separate(
    name: Seq<char>,
    value: Seq<char>,
    rest: Seq<Seq<char>>,
    o: OptionsView,
    auto: Mode,
)
    requires
        flag_named(name) is Some,
        has_value(flag_named(name)->0),
    ensures
        parsed(seq![name + "="@ + value] + rest, 0, o, auto) == parsed(
            seq![name, value] + rest,
            0,
            o,
            auto,
        ),
{
    let a = seq![name + "="@ + value] + rest;
    let b = seq![name, value] + rest;
    assert(a[0] == name + "="@ + value);
    assert(b[0] == name && b[1] == value);
    lemma_no_equals_sign(name);
    reveal_strlit("=");
    lemma_cut_at_sign(name, value, 0);
    assert((name + "="@ + value).take(name.len() as int) =~= name);
    assert((name + "="@ + value).skip(name.len() + 1int) =~= value);
    match given(o, flag_named(name)->0, value, auto) {
        Ok(next) => {
            lemma_same_rest(a, 1, b, 2, next, auto);
        },
        Err(e) => {},
    }
}

proof fn lemma_no_equals_sign(name: Seq<char>)
    requires
        flag_named(name) is Some,
        has_value(flag_named(name)->0),
    ensures
        forall|i: int| 0 <= i < name.len() ==> name[i] != '=',
{
    reveal_strlit("-t");
    reveal_strlit("--target");
    reveal_strlit("-b");
    reveal_strlit("--budget");
    reveal_strlit("-p");
    reveal_strlit("--passes");
    reveal_strlit("--theme");
}

proof fn lemma_cut_at_sign(name: Seq<char>, value: Seq<char>, from: int)
    requires
        0 <= from <= name.len(),
        forall|i: int| 0 <= i < name.len() ==> name[i] != '=',
    ensures
        first_from(name + "="@ + value, "="@, from) == Some(name.len() as int),
        first_from(name, "="@, from) is None,
    decreases name.len() - from,
{
    reveal_strlit("=");
    let s = name + "="@ + value;
    assert(s.subrange(from, from + 1) =~= seq![s[from]]);
    if from < name.len() {
        assert(name.subrange(from, from + 1) =~= seq![name[from]]);
        assert(seq![name[from]][0] != "="@[0]);
        assert(s[from] == name[from]);
        lemma_cut_at_sign(name, value, from + 1);
    } else {
        assert("="@ =~= seq![s[from]]);
    }
}

proof fn lemma_same_rest(a: Seq<Seq<char>>, i: int, b: Seq<Seq<char>>, j: int, o: OptionsView, auto: Mode)
    requires
        0 <= i,
        0 <= j,
        a.len() - i == b.len() - j,
        forall|k: int| 0 <= k < a.len() - i ==> a[i + k] == #[trigger] b[j + k],
    ensures
        parsed(a, i, o, auto) == parsed(b, j, o, auto),
    decreases a.len() - i,
{
    if i < a.len() {
        assert(a[i + 0] == b[j + 0]);
        let (name, inline) = match cut_first(a[i], "="@) {
            Some((name, value)) => (name, Some(value)),
            None => (a[i], None),
        };
        if i + 1 < a.len() {
            assert(a[i + 1] == b[j + 1]);
        }
        match flag_named(name) {
            None => {},
            Some(flag) => {
                assert forall|k: int| 0 <= k < a.len() - (i + 1) implies a[i + 1 + k] == #[trigger] b[j + 1 + k] by {
                    assert(a[i + (k + 1)] == b[j + (k + 1)]);
                }
                if !has_value(flag) {
                    lemma_same_rest(a, i + 1, b, j + 1, switched(o, flag), auto);
                } else if inline is Some {
                    match given(o, flag, inline->0, auto) {
                        Ok(next) => {
                            lemma_same_rest(a, i + 1, b, j + 1, next, auto);
                        },
                        Err(_) => {},
                    }
                } else if i + 1 < a.len() {
                    match given(o, flag, a[i + 1], auto) {
                        Ok(next) => {
                            assert forall|k: int| 0 <= k < a.len() - (i + 2) implies a[i + 2 + k]
                                == #[trigger] b[j + 2 + k] by {
                                assert(a[i + (k + 2)] == b[j + (k + 2)]);
                            }
                            lemma_same_rest(a, i + 2, b, j + 2, next, auto);
                        },
                        Err(_) => {},
                    }
                }
            },
        }
    }
}

/// What a run does, once it is known how many devices there are.
#[derive(Debug, Clone, Copy, PartialEq, Eq, Structural)]
pub enum Plan {
    /// Print the devices.
    List,
    /// There is nothing to measure.
    NoDevices,
    /// Measure and print the results.
    Headless,
    /// Show the devices in the terminal.
    Interactive,
}

/// What a run does, once it is known how many devices there are.
pub fn plan(options: &Options, devices: usize) -> (r: Plan)
    ensures
        r == if options.list {
            Plan::List
        } else if (options.json || options.target is Some) && devices == 0 {
            Plan::NoDevices
        } else if options.json {
            Plan::Headless
        } else {
            Plan::Interactive
        },
{
    if options.list {
        Plan::List
    } else if (options.json || options.target.is_some()) && devices == 0 {
        Plan::NoDevices
    } else if options.json {
        Plan::Headless
    } else {
        Plan::Interactive
    }
}

#[verifier::rlimit(60)]
proof fn lemma_names()
    ensures
        flag_named("-h"@) == Some(Flag::Help),
        flag_named("--help"@) == Some(Flag::Help),
        flag_named("-V"@) == Some(Flag::Version),
        flag_named("--version"@) == Some(Flag::Version),
        flag_named("-t"@) == Some(Flag::Target),
        flag_named("--target"@) == Some(Flag::Target),
        flag_named("-b"@) == Some(Flag::Budget),
        flag_named("--budget"@) == Some(Flag::Budget),
        flag_named("-p"@) == Some(Flag::Passes),
        flag_named("--passes"@) == Some(Flag::Passes),
        flag_named("--no-direct"@) == Some(Flag::NoDirect),
        flag_named("--direct"@) == Some(Flag::Direct),
        flag_named("--theme"@) == Some(Flag::Theme),
        flag_named("-l"@) == Some(Flag::List),
        flag_named("--list"@) == Some(Flag::List),
        flag_named("-j"@) == Some(Flag::Json),
        flag_named("--json"@) == Some(Flag::Json),
{
    reveal_strlit("-h");
    reveal_strlit("--help");
    reveal_strlit("-V");
    reveal_strlit("--version");
    reveal_strlit("-t");
    reveal_strlit("--target");
    reveal_strlit("-b");
    reveal_strlit("--budget");
    reveal_strlit("-p");
    reveal_strlit("--passes");
    reveal_strlit("--no-direct");
    reveal_strlit("--direct");
    reveal_strlit("--theme");
    reveal_strlit("-l");
    reveal_strlit("--list");
    reveal_strlit("-j");
    reveal_strlit("--json");
    assert("-h"@.len() == 2 && "-h"@[1] == 'h');
    assert("-V"@.len() == 2 && "-V"@[1] == 'V');
    assert("-t"@.len() == 2 && "-t"@[1] == 't');
    assert("-b"@.len() == 2 && "-b"@[1] == 'b');
    assert("-p"@.len() == 2 && "-p"@[1] == 'p');
    assert("-l"@.len() == 2 && "-l"@[1] == 'l');
    assert("-j"@.len() == 2 && "-j"@[1] == 'j');
    assert("--help"@.len() == 6 && "--help"@[2] == 'h');
    assert("--list"@.len() == 6 && "--list"@[2] == 'l');
    assert("--json"@.len() == 6 && "--json"@[2] == 'j');
    assert("--version"@.len() == 9);
    assert("--theme"@.len() == 7);
    assert("--no-direct"@.len() == 11);
    assert("--target"@.len() == 8 && "--target"@[2] == 't');
    assert("--budget"@.len() == 8 && "--budget"@[2] == 'b');
    assert("--passes"@.len() == 8 && "--passes"@[2] == 'p');
    assert("--direct"@.len() == 8 && "--direct"@[2] == 'd');
}

/// Whether a name can be told from a value behind an equals sign.
pub open spec fn unequalled(name: Seq<char>) -> bool {
    forall|i: int| 0 <= i < name.len() ==> #[trigger] name[i] != '='
}

#[verifier::rlimit(60)]
proof fn lemma_unequalled()
    ensures
        unequalled("-h"@) && unequalled("--help"@),
        unequalled("-V"@) && unequalled("--version"@),
        unequalled("-t"@) && unequalled("--target"@),
        unequalled("-b"@) && unequalled("--budget"@),
        unequalled("-p"@) && unequalled("--passes"@),
        unequalled("-l"@) && unequalled("--list"@),
        unequalled("-j"@) && unequalled("--json"@),
        unequalled("--no-direct"@) && unequalled("--direct"@) && unequalled("--theme"@),
{
    reveal_strlit("-h");
    reveal_strlit("--help");
    reveal_strlit("-V");
    reveal_strlit("--version");
    reveal_strlit("-t");
    reveal_strlit("--target");
    reveal_strlit("-b");
    reveal_strlit("--budget");
    reveal_strlit("-p");
    reveal_strlit("--passes");
    reveal_strlit("--no-direct");
    reveal_strlit("--direct");
    reveal_strlit("--theme");
    reveal_strlit("-l");
    reveal_strlit("--list");
    reveal_strlit("-j");
    reveal_strlit("--json");
}

#[verifier::rlimit(60)]
proof fn lemma_leading(name: Seq<char>, rest: Seq<Seq<char>>, o: OptionsView, auto: Mode)
    requires
        unequalled(name),
        flag_named(name) is Some,
    ensures
        ({
            let r = parsed(seq![name] + rest, 0, o, auto);
            let flag = flag_named(name)->0;
            &&& flag == Flag::Help ==> r == Ok::<RequestView, Seq<char>>(RequestView::Help)
            &&& flag == Flag::Version ==> r == Ok::<RequestView, Seq<char>>(RequestView::Version)
            &&& flag != Flag::Help && flag != Flag::Version && !has_value(flag) ==> r == parsed(
                rest,
                0,
                switched(o, flag),
                auto,
            )
            &&& has_value(flag) && rest.len() == 0 ==> r is Err
            &&& has_value(flag) && rest.len() > 0 ==> r == match given(o, flag, rest[0], auto) {
                Ok(next) => parsed(rest.skip(1), 0, next, auto),
                Err(e) => Err(e),
            }
        }),
{
    let args = seq![name] + rest;
    assert(args[0] == name);
    lemma_cut_at_sign(name, Seq::empty(), 0);
    assert(cut_first(name, "="@) is None);
    let flag = flag_named(name)->0;
    if flag == Flag::Help || flag == Flag::Version {
    } else if !has_value(flag) {
        lemma_same_rest(args, 1, rest, 0, switched(o, flag), auto);
    } else if rest.len() > 0 {
        assert(args[1] == rest[0]);
        match given(o, flag, rest[0], auto) {
            Ok(next) => {
                lemma_same_rest(args, 2, rest.skip(1), 0, next, auto);
            },
            Err(_) => {},
        }
    }
}

/// The long name of an option comes to the same as its short one, whatever
/// follows.
#[verifier::rlimit(60)]
pub proof fn law_long_and_short_names_agree(rest: Seq<Seq<char>>, o: OptionsView, auto: Mode)
    ensures
        parsed(seq!["--json"@] + rest, 0, o, auto) == parsed(seq!["-j"@] + rest, 0, o, auto),
        parsed(seq!["--list"@] + rest, 0, o, auto) == parsed(seq!["-l"@] + rest, 0, o, auto),
        parsed(seq!["--help"@] + rest, 0, o, auto) == parsed(seq!["-h"@] + rest, 0, o, auto),
        parsed(seq!["--version"@] + rest, 0, o, auto) == parsed(seq!["-V"@] + rest, 0, o, auto),
        rest.len() > 0 ==> {
            &&& parsed(seq!["--target"@] + rest, 0, o, auto) == parsed(seq!["-t"@] + rest, 0, o, auto)
            &&& parsed(seq!["--budget"@] + rest, 0, o, auto) == parsed(seq!["-b"@] + rest, 0, o, auto)
            &&& parsed(seq!["--passes"@] + rest, 0, o, auto) == parsed(seq!["-p"@] + rest, 0, o, auto)
        },
{
    lemma_names();
    lemma_unequalled();
    lemma_leading("--json"@, rest, o, auto);
    lemma_leading("-j"@, rest, o, auto);
    lemma_leading("--list"@, rest, o, auto);
    lemma_leading("-l"@, rest, o, auto);
    lemma_leading("--help"@, rest, o, auto);
    lemma_leading("-h"@, rest, o, auto);
    lemma_leading("--version"@, rest, o, auto);
    lemma_leading("-V"@, rest, o, auto);
    lemma_leading("--target"@, rest, o, auto);
    lemma_leading("-t"@, rest, o, auto);
    lemma_leading("--budget"@, rest, o, auto);
    lemma_leading("-b"@, rest, o, auto);
    lemma_leading("--passes"@, rest, o, auto);
    lemma_leading("-p"@, rest, o, auto);
}

/// An option without a value sets just what it is named after and leaves all
/// else to the arguments that follow; help and the version end the reading.
#[verifier::rlimit(60)]
pub proof fn law_switches_set_what_they_name(rest: Seq<Seq<char>>, o: OptionsView, auto: Mode)
    ensures
        parsed(seq!["-j"@] + rest, 0, o, auto) == parsed(rest, 0, OptionsView { json: true, ..o }, auto),
        parsed(seq!["-l"@] + rest, 0, o, auto) == parsed(rest, 0, OptionsView { list: true, ..o }, auto),
        parsed(seq!["--direct"@] + rest, 0, o, auto) == parsed(
            rest,
            0,
            OptionsView { direct: true, ..o },
            auto,
        ),
        parsed(seq!["--no-direct"@] + rest, 0, o, auto) == parsed(
            rest,
            0,
            OptionsView { direct: false, ..o },
            auto,
        ),
        parsed(seq!["-h"@] + rest, 0, o, auto) == Ok::<RequestView, Seq<char>>(RequestView::Help),
        parsed(seq!["-V"@] + rest, 0, o, auto) == Ok::<RequestView, Seq<char>>(RequestView::Version),
        parsed(Seq::empty(), 0, o, auto) == Ok::<RequestView, Seq<char>>(RequestView::Run(o)),
{
    lemma_names();
    lemma_unequalled();
    lemma_leading("-j"@, rest, o, auto);
    lemma_leading("-l"@, rest, o, auto);
    lemma_leading("-h"@, rest, o, auto);
    lemma_leading("-V"@, rest, o, auto);
    lemma_leading("--direct"@, rest, o, auto);
    lemma_leading("--no-direct"@, rest, o, auto);
}

proof fn lemma_budget(secs: nat)
    ensures
        5 <= secs <= 600 ==> budget_of(decimal(secs)) == Ok::<Duration, Seq<char>>(
            Duration { nanos: (secs * 1_000_000_000) as u64 },
        ),
        secs < 5 || secs > 600 ==> budget_of(decimal(secs)) is Err,
{
    law_decimals_read_back(secs);
}

/// A target is taken as it is written, and nothing else is changed by it.
pub proof fn law_targets_are_taken(value: Seq<char>, rest: Seq<Seq<char>>, o: OptionsView, auto: Mode)
    ensures
        parsed(seq!["-t"@, value] + rest, 0, o, auto) == parsed(
            rest,
            0,
            OptionsView { target: Some(value), ..o },
            auto,
        ),
{
    lemma_names();
    lemma_unequalled();
    lemma_valued("-t"@, value, rest, o, auto);
}

/// A budget is a number of whole seconds in decimal, from five to six hundred,
/// and no other is taken. Nothing else is changed by it.
pub proof fn law_budgets_are_taken(secs: nat, rest: Seq<Seq<char>>, o: OptionsView, auto: Mode)
    ensures
        5 <= secs <= 600 ==> parsed(seq!["-b"@, decimal(secs)] + rest, 0, o, auto) == parsed(
            rest,
            0,
            OptionsView { budget: Duration { nanos: (secs * 1_000_000_000) as u64 }, ..o },
            auto,
        ),
        secs < 5 || secs > 600 ==> parsed(seq!["-b"@, decimal(secs)] + rest, 0, o, auto) is Err,
{
    lemma_names();
    lemma_unequalled();
    lemma_budget(secs);
    lemma_valued("-b"@, decimal(secs), rest, o, auto);
}

/// An option with a value is refused where none follows.
#[verifier::rlimit(60)]
pub proof fn law_values_have_to_follow(o: OptionsView, auto: Mode)
    ensures
        parsed(seq!["-t"@], 0, o, auto) is Err,
        parsed(seq!["-b"@], 0, o, auto) is Err,
        parsed(seq!["-p"@], 0, o, auto) is Err,
        parsed(seq!["--theme"@], 0, o, auto) is Err,
{
    lemma_names();
    lemma_unequalled();
    let none = Seq::<Seq<char>>::empty();
    lemma_leading("-t"@, none, o, auto);
    lemma_leading("-b"@, none, o, auto);
    lemma_leading("-p"@, none, o, auto);
    lemma_leading("--theme"@, none, o, auto);
    assert(seq!["-t"@] + none =~= seq!["-t"@]);
    assert(seq!["-b"@] + none =~= seq!["-b"@]);
    assert(seq!["-p"@] + none =~= seq!["-p"@]);
    assert(seq!["--theme"@] + none =~= seq!["--theme"@]);
}

/// An argument whose name, before an equals sign or without one, is that of no
/// option is refused.
pub proof fn law_unknown_options_are_refused(name: Seq<char>, rest: Seq<Seq<char>>, o: OptionsView, auto: Mode)
    requires
        unequalled(name),
        name.len() < 2 || name[0] != '-',
    ensures
        parsed(seq![name] + rest, 0, o, auto) is Err,
{
    let args = seq![name] + rest;
    assert(args[0] == name);
    lemma_cut_at_sign(name, Seq::empty(), 0);
    lemma_dashes();
    assert(flag_named(name) is None);
}

proof fn lemma_dashes()
    ensures
        forall|s: Seq<char>| #[trigger] flag_named(s) is Some ==> s.len() >= 2 && s[0] == '-',
{
    reveal_strlit("-h");
    reveal_strlit("--help");
    reveal_strlit("-V");
    reveal_strlit("--version");
    reveal_strlit("-t");
    reveal_strlit("--target");
    reveal_strlit("-b");
    reveal_strlit("--budget");
    reveal_strlit("-p");
    reveal_strlit("--passes");
    reveal_strlit("--no-direct");
    reveal_strlit("--direct");
    reveal_strlit("--theme");
    reveal_strlit("-l");
    reveal_strlit("--list");
    reveal_strlit("-j");
    reveal_strlit("--json");
}

/// A theme is the one of its name, or the one that fits the terminal, and any
/// other name is refused.
#[verifier::rlimit(60)]
pub proof fn law_themes_are_taken_by_name(value: Seq<char>, rest: Seq<Seq<char>>, o: OptionsView, auto: Mode)
    ensures
        parsed(seq!["--theme"@, "dark"@] + rest, 0, o, auto) == parsed(
            rest,
            0,
            OptionsView { theme: Mode::Dark, ..o },
            auto,
        ),
        parsed(seq!["--theme"@, "light"@] + rest, 0, o, auto) == parsed(
            rest,
            0,
            OptionsView { theme: Mode::Light, ..o },
            auto,
        ),
        parsed(seq!["--theme"@, "auto"@] + rest, 0, o, auto) == parsed(
            rest,
            0,
            OptionsView { theme: auto, ..o },
            auto,
        ),
        value != "dark"@ && value != "light"@ && value != "auto"@ ==> parsed(
            seq!["--theme"@, value] + rest,
            0,
            o,
            auto,
        ) is Err,
{
    lemma_names();
    lemma_unequalled();
    lemma_modes(auto);
    lemma_valued("--theme"@, "dark"@, rest, o, auto);
    lemma_valued("--theme"@, "light"@, rest, o, auto);
    lemma_valued("--theme"@, "auto"@, rest, o, auto);
    lemma_valued("--theme"@, value, rest, o, auto);
}

proof fn lemma_modes(auto: Mode)
    ensures
        named_mode("dark"@, auto) == Some(Mode::Dark),
        named_mode("light"@, auto) == Some(Mode::Light),
        named_mode("auto"@, auto) == Some(auto),
{
    reveal_strlit("dark");
    reveal_strlit("light");
    reveal_strlit("auto");
    assert("dark"@.len() == 4 && "dark"@[0] == 'd');
    assert("auto"@.len() == 4 && "auto"@[0] == 'a');
    assert("light"@.len() == 5);
}

proof fn lemma_valued(name: Seq<char>, value: Seq<char>, rest: Seq<Seq<char>>, o: OptionsView, auto: Mode)
    requires
        unequalled(name),
        flag_named(name) is Some,
        has_value(flag_named(name)->0),
    ensures
        parsed(seq![name, value] + rest, 0, o, auto) == match given(o, flag_named(name)->0, value, auto) {
            Ok(next) => parsed(rest, 0, next, auto),
            Err(e) => Err(e),
        },
{
    let a = seq![value] + rest;
    lemma_leading(name, a, o, auto);
    assert(seq![name, value] + rest =~= seq![name] + a);
    assert(a.skip(1) =~= rest);
}

/// Whether a field names a pass.
pub open spec fn names(field: Seq<char>, kind: PassKind) -> bool {
    trimmed(field) == short(kind)
}

/// Whether a field names something that is no pass.
pub open spec fn stray(field: Seq<char>) -> bool {
    trimmed(field).len() > 0 && forall|k: PassKind| !#[trigger] names(field, k)
}

proof fn lemma_naming(field: Seq<char>, kind: PassKind)
    ensures
        names(field, kind) ==> pass_named(trimmed(field)) == Some(kind),
        pass_named(trimmed(field)) == Some(kind) ==> names(field, kind),
        stray(field) <==> trimmed(field).len() > 0 && pass_named(trimmed(field)) is None,
{
    lemma_pass_names(kind);
    let name = trimmed(field);
    if name.len() > 0 && pass_named(name) is None {
        assert forall|k: PassKind| !#[trigger] names(field, k) by {
            match k {
                PassKind::SeqRead => {},
                PassKind::RandRead => {},
                PassKind::SeqWrite => {},
                PassKind::RandWrite => {},
            }
        }
    }
    if pass_named(name) is Some {
        assert(names(field, pass_named(name)->0));
    }
}

/// A list of passes is refused just where one of its fields names something that
/// is no pass.
pub proof fn law_stray_names_are_refused(list: Seq<Seq<char>>)
    ensures
        passes_from(list) is Err <==> exists|i: int| 0 <= i < list.len() && stray(#[trigger] list[i]),
    decreases list.len(),
{
    if list.len() > 0 {
        let init = list.drop_last();
        law_stray_names_are_refused(init);
        lemma_naming(list.last(), PassKind::SeqRead);
        assert(list[list.len() - 1] == list.last());
        if exists|i: int| 0 <= i < init.len() && stray(#[trigger] init[i]) {
            let i = choose|i: int| 0 <= i < init.len() && stray(#[trigger] init[i]);
            assert(stray(list[i]));
        }
        if exists|i: int| 0 <= i < list.len() && stray(#[trigger] list[i]) {
            let i = choose|i: int| 0 <= i < list.len() && stray(#[trigger] list[i]);
            if i < init.len() {
                assert(stray(init[i]));
            }
        }
    }
}

/// The passes of a list are those that its fields name, all of them and no
/// others.
pub proof fn law_named_passes_are_taken(list: Seq<Seq<char>>, kind: PassKind)
    requires
        passes_from(list) is Ok,
    ensures
        passes_from(list)->Ok_0.contains(kind) <==> exists|i: int|
            0 <= i < list.len() && names(#[trigger] list[i], kind),
    decreases list.len(),
{
    if list.len() > 0 {
        let init = list.drop_last();
        law_named_passes_are_taken(init, kind);
        lemma_naming(list.last(), kind);
        lemma_pass_names(kind);
        assert(list[list.len() - 1] == list.last());
        let old = passes_from(init)->Ok_0;
        let now = passes_from(list)->Ok_0;
        if exists|i: int| 0 <= i < init.len() && names(#[trigger] init[i], kind) {
            let i = choose|i: int| 0 <= i < init.len() && names(#[trigger] init[i], kind);
            assert(names(list[i], kind));
        }
        if exists|i: int| 0 <= i < list.len() && names(#[trigger] list[i], kind) {
            let i = choose|i: int| 0 <= i < list.len() && names(#[trigger] list[i], kind);
            if i < init.len() {
                assert(names(init[i], kind));
            }
        }
        if old.contains(kind) {
            let k = old.index_of(kind);
            assert(now[k] == kind);
        } else if now.contains(kind) {
            let k = now.index_of(kind);
            assert(k == old.len());
            assert(names(list[list.len() - 1], kind));
        }
        if names(list.last(), kind) && !old.contains(kind) {
            assert(now[old.len() as int] == kind);
        }
    } else {
        assert(passes_from(list)->Ok_0.len() == 0);
    }
}

proof fn lemma_pass_names(kind: PassKind)
    ensures
        pass_named(short(kind)) == Some(kind),
        short(kind).len() > 0,
        !short(kind).contains(','),
        trimmed(short(kind)) == short(kind),
{
    law_passes_are_told_apart(kind, PassKind::SeqRead);
    law_passes_are_told_apart(kind, PassKind::RandRead);
    law_passes_are_told_apart(kind, PassKind::SeqWrite);
    law_passes_are_told_apart(kind, PassKind::RandWrite);
    reveal_strlit("seq_read");
    reveal_strlit("rand_read");
    reveal_strlit("seq_write");
    reveal_strlit("rand_write");
    assert forall|i: int| 0 <= i < short(kind).len() implies short(kind)[i] != ',' by {}
    law_trimmed_text_stays(short(kind));
}

proof fn lemma_passes_in_order(kinds: Seq<PassKind>, n: int)
    requires
        kinds.no_duplicates(),
        0 <= n <= kinds.len(),
    ensures
        passes_from(kinds.take(n).map_values(|k: PassKind| short(k))) == Ok::<Seq<PassKind>, Seq<char>>(
            kinds.take(n),
        ),
    decreases n,
{
    let names = kinds.take(n).map_values(|k: PassKind| short(k));
    if n == 0 {
        assert(kinds.take(0) =~= Seq::<PassKind>::empty());
    } else {
        let m = n - 1;
        lemma_passes_in_order(kinds, m);
        assert(names.drop_last() =~= kinds.take(m).map_values(|k: PassKind| short(k)));
        assert(names.last() == short(kinds[m]));
        lemma_pass_names(kinds[m]);
        assert(!kinds.take(m).contains(kinds[m])) by {
            if kinds.take(m).contains(kinds[m]) {
                let i = kinds.take(m).index_of(kinds[m]);
                assert(kinds[i] == kinds[m]);
            }
        }
        assert(kinds.take(m).push(kinds[m]) =~= kinds.take(n));
    }
}

/// Passes that are named one after another, with commas between them, are taken
/// in that order.
#[verifier::rlimit(60)]
pub proof fn law_passes_are_taken_in_order(
    kinds: Seq<PassKind>,
    rest: Seq<Seq<char>>,
    o: OptionsView,
    auto: Mode,
)
    requires
        kinds.len() > 0,
        kinds.no_duplicates(),
    ensures
        parsed(
            seq!["-p"@, joined(kinds.map_values(|k: PassKind| short(k)), seq![','])] + rest,
            0,
            o,
            auto,
        ) == parsed(rest, 0, OptionsView { passes: kinds, ..o }, auto),
{
    let names = kinds.map_values(|k: PassKind| short(k));
    let list = joined(names, seq![',']);
    assert forall|i: int| 0 <= i < names.len() implies !(#[trigger] names[i]).contains(',') by {
        lemma_pass_names(kinds[i]);
    }
    law_joined_pieces_are_the_fields(names, ',');
    lemma_passes_in_order(kinds, kinds.len() as int);
    assert(kinds.take(kinds.len() as int) =~= kinds);
    assert(passes_named(list) == Ok::<Seq<PassKind>, Seq<char>>(kinds));
    lemma_passes_option(list, rest, o, auto);
}

proof fn lemma_passes_option(list: Seq<char>, rest: Seq<Seq<char>>, o: OptionsView, auto: Mode)
    requires
        passes_named(list) is Ok,
    ensures
        parsed(seq!["-p"@, list] + rest, 0, o, auto) == parsed(
            rest,
            0,
            OptionsView { passes: passes_named(list)->Ok_0, ..o },
            auto,
        ),
{
    lemma_names();
    lemma_unequalled();
    lemma_valued("-p"@, list, rest, o, auto);
}

/// A list of passes that names none is refused.
pub proof fn law_some_pass_has_to_be_named(s: Seq<char>)
    ensures
        passes_named(s) matches Ok(r) ==> r.len() > 0,
        passes_named(Seq::empty()) is Err,
{
    let none = fields(Seq::<char>::empty(), ',');
    assert(none.len() == 1 && none.last() =~= Seq::<char>::empty());
    assert(none.drop_last() =~= Seq::<Seq<char>>::empty());
    law_trimmed_text_stays(none.last());
    assert(passes_from(none.drop_last()) == Ok::<Seq<PassKind>, Seq<char>>(Seq::empty()));
    assert(passes_from(none) == Ok::<Seq<PassKind>, Seq<char>>(Seq::empty()));
}

/// Without options everything is measured for forty seconds past the cache, on
/// the device that is picked in the terminal.
pub proof fn law_nothing_needs_to_be_asked_for(auto: Mode)
    ensures
        ({
            let o = defaults(auto);
            &&& o.target is None && !o.list && !o.json && o.direct
            &&& o.budget.nanos == 40 * 1_000_000_000
            &&& o.theme == auto
            &&& forall|k: PassKind| #[trigger] o.passes.contains(k)
        }),
{
    assert forall|k: PassKind| #[trigger] defaults(auto).passes.contains(k) by {
        law_passes_are_told_apart(k, k);
        let i = choose|i: int| 0 <= i < all_passes().len() && #[trigger] all_passes()[i] == k;
        assert(defaults(auto).passes[i] == k);
    }
}

/// A list of devices is printed whenever it is asked for, and nothing is
/// measured then. A report is printed, without the terminal interface, where one
/// is asked for and there is a device.
pub proof fn law_plan_does_what_is_asked_for(o: Options, devices: usize, r: Plan)
    requires
        call_ensures(plan, (&o, devices), r),
    ensures
        r == Plan::List <==> o.list,
        r == Plan::Headless <==> !o.list && o.json && devices > 0,
        r == Plan::NoDevices <==> !o.list && devices == 0 && (o.json || o.target is Some),
        r == Plan::Interactive <==> !o.list && !o.json && (devices > 0 || o.target is None),
{
}

/// Without arguments all is as it is by default; any others are read from the
/// first one on.
pub proof fn law_arguments_are_read_from_the_first(args: Vec<String>, auto: Mode, r: Result<Request, String>)
    requires
        call_ensures(Options::parse, (&args, auto), r),
    ensures
        args.deep_view().len() == 0 ==> outcome(r) == Ok::<RequestView, Seq<char>>(
            RequestView::Run(defaults(auto)),
        ),
        args.deep_view() == seq!["--json"@] ==> outcome(r) == Ok::<RequestView, Seq<char>>(
            RequestView::Run(OptionsView { json: true, ..defaults(auto) }),
        ),
        args.deep_view() == seq!["--list"@] ==> outcome(r) == Ok::<RequestView, Seq<char>>(
            RequestView::Run(OptionsView { list: true, ..defaults(auto) }),
        ),
{
    let none = Seq::<Seq<char>>::empty();
    let o = defaults(auto);
    law_long_and_short_names_agree(none, o, auto);
    law_switches_set_what_they_name(none, o, auto);
    law_switches_set_what_they_name(none, OptionsView { json: true, ..o }, auto);
    law_switches_set_what_they_name(none, OptionsView { list: true, ..o }, auto);
    assert(seq!["--json"@] + none =~= seq!["--json"@]);
    assert(seq!["--list"@] + none =~= seq!["--list"@]);
    if args.deep_view().len() == 0 {
        assert(args.deep_view() =~= none);
    }
}

} // verus!
