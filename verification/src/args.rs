//! The command-line argument state machine: a single pass over the token
//! stream that produces a validated change-set plus top-level flags.
//!
//! Recognized flags switch the current collection mode; any non-flag token is
//! collected into whichever list the mode points at. Once list collection is
//! engaged, every later token — flag-shaped or not — becomes a filter value.
//! The exclusive flags (version, clear, help) and the first-position rule for
//! the list flags are hard failures.

use vstd::prelude::*;

use crate::text::str_eq;
use crate::Error;
use crate::ErrorSpec;

verus! {

/// One requested mutation of the ignore file, in input order.
#[derive(Debug)]
pub enum Change {
    /// Add a group's rendered section (no-op when it already exists).
    AddG(String),
    /// Add a group's rendered section, overwriting an existing one.
    AddGF(String),
    /// Add a loose pattern line.
    AddI(String),
    /// Remove a group's section.
    RemoveG(String),
    /// Erase a pattern from every section body.
    RemoveI(String),
}

/// Mathematical image of `Change`.
pub enum ChangeSpec {
    AddG(Seq<char>),
    AddGF(Seq<char>),
    AddI(Seq<char>),
    RemoveG(Seq<char>),
    RemoveI(Seq<char>),
}

impl View for Change {
    type V = ChangeSpec;

    open spec fn view(&self) -> ChangeSpec {
        match self {
            Change::AddG(s) => ChangeSpec::AddG(s@),
            Change::AddGF(s) => ChangeSpec::AddGF(s@),
            Change::AddI(s) => ChangeSpec::AddI(s@),
            Change::RemoveG(s) => ChangeSpec::RemoveG(s@),
            Change::RemoveI(s) => ChangeSpec::RemoveI(s@),
        }
    }
}

impl DeepView for Change {
    type V = ChangeSpec;

    open spec fn deep_view(&self) -> ChangeSpec {
        self.view()
    }
}

/// What the scanner is currently collecting.
pub enum CollectMode {
    Add,
    AddForce,
    AddItem,
    Remove,
    RemoveItem,
    List,
    Idle,
}

/// The validated outcome of argument parsing.
#[derive(Debug)]
pub struct Args {
    pub changes: Vec<Change>,
    pub create: bool,
    pub version: bool,
    pub help: bool,
    pub list: Option<Vec<String>>,
    pub list_exhaustive: bool,
    pub clear: bool,
}

/// Mathematical image of `Args`.
pub struct ArgsSpec {
    pub changes: Seq<ChangeSpec>,
    pub create: bool,
    pub version: bool,
    pub help: bool,
    pub list: Option<Seq<Seq<char>>>,
    pub list_exhaustive: bool,
    pub clear: bool,
}

pub open spec fn filters_view(l: Option<Vec<String>>) -> Option<Seq<Seq<char>>> {
    match l {
        Option::Some(v) => Option::Some(v.deep_view()),
        Option::None => Option::None,
    }
}

impl View for Args {
    type V = ArgsSpec;

    open spec fn view(&self) -> ArgsSpec {
        ArgsSpec {
            changes: self.changes.deep_view(),
            create: self.create,
            version: self.version,
            help: self.help,
            list: filters_view(self.list),
            list_exhaustive: self.list_exhaustive,
            clear: self.clear,
        }
    }
}

/// The scanner state: the output assembled so far plus the collection mode.
pub struct ParseState {
    pub out: ArgsSpec,
    pub mode: CollectMode,
}

pub open spec fn is_add_tok(t: Seq<char>) -> bool {
    t == "--add"@ || t == "-a"@
}

pub open spec fn is_add_item_tok(t: Seq<char>) -> bool {
    t == "--add-item"@ || t == "-ai"@
}

pub open spec fn is_force_add_tok(t: Seq<char>) -> bool {
    t == "--force-add"@ || t == "-fa"@
}

pub open spec fn is_remove_tok(t: Seq<char>) -> bool {
    t == "--remove"@ || t == "-r"@
}

pub open spec fn is_remove_item_tok(t: Seq<char>) -> bool {
    t == "--remove-item"@ || t == "-ri"@
}

pub open spec fn is_create_tok(t: Seq<char>) -> bool {
    t == "--create"@ || t == "-c"@
}

pub open spec fn is_version_tok(t: Seq<char>) -> bool {
    t == "--version"@ || t == "-v"@
}

pub open spec fn is_clear_tok(t: Seq<char>) -> bool {
    t == "--clear"@ || t == "-cl"@
}

pub open spec fn is_help_tok(t: Seq<char>) -> bool {
    t == "--help"@ || t == "-h"@
}

pub open spec fn is_list_tok(t: Seq<char>) -> bool {
    t == "--list"@ || t == "-l"@
}

pub open spec fn is_list_exhaustive_tok(t: Seq<char>) -> bool {
    t == "--list-exhaustive"@ || t == "-le"@
}

pub open spec fn init_state() -> ParseState {
    ParseState {
        out: ArgsSpec {
            changes: Seq::empty(),
            create: false,
            version: false,
            help: false,
            list: Option::None,
            list_exhaustive: false,
            clear: false,
        },
        mode: CollectMode::Idle,
    }
}

pub open spec fn with_mode(st: ParseState, mode: CollectMode) -> ParseState {
    ParseState { out: st.out, mode }
}

pub open spec fn with_change(st: ParseState, c: ChangeSpec) -> ParseState {
    ParseState { out: ArgsSpec { changes: st.out.changes.push(c), ..st.out }, mode: st.mode }
}

/// One scanner step: how state `st` reacts to token `tok` at position `idx`
/// of an argument vector of length `n`.
pub open spec fn parse_step(st: ParseState, tok: Seq<char>, idx: int, n: int) -> Result<
    ParseState,
    ErrorSpec,
> {
    match st.out.list {
        Option::Some(fs) => Ok(
            ParseState {
                out: ArgsSpec { list: Option::Some(fs.push(tok)), ..st.out },
                mode: st.mode,
            },
        ),
        Option::None => if is_add_tok(tok) {
            Ok(with_mode(st, CollectMode::Add))
        } else if is_add_item_tok(tok) {
            Ok(with_mode(st, CollectMode::AddItem))
        } else if is_force_add_tok(tok) {
            Ok(with_mode(st, CollectMode::AddForce))
        } else if is_remove_tok(tok) {
            Ok(with_mode(st, CollectMode::Remove))
        } else if is_remove_item_tok(tok) {
            Ok(with_mode(st, CollectMode::RemoveItem))
        } else if is_create_tok(tok) {
            Ok(
                ParseState {
                    out: ArgsSpec { create: true, ..st.out },
                    mode: CollectMode::Add,
                },
            )
        } else if is_version_tok(tok) {
            if n > 1 {
                Err(ErrorSpec::MustBeAlone("--version"@, "-v"@))
            } else {
                Ok(
                    ParseState {
                        out: ArgsSpec { version: true, ..st.out },
                        mode: CollectMode::Idle,
                    },
                )
            }
        } else if is_clear_tok(tok) {
            if n > 1 {
                Err(ErrorSpec::MustBeAlone("--clear"@, "-cl"@))
            } else {
                Ok(
                    ParseState {
                        out: ArgsSpec { clear: true, ..st.out },
                        mode: CollectMode::Idle,
                    },
                )
            }
        } else if is_help_tok(tok) {
            if n > 1 {
                Err(ErrorSpec::MustBeAlone("--help"@, "-h"@))
            } else {
                Ok(
                    ParseState {
                        out: ArgsSpec { help: true, ..st.out },
                        mode: CollectMode::Idle,
                    },
                )
            }
        } else if is_list_tok(tok) {
            if idx > 0 {
                Err(ErrorSpec::MustBeFirst("--list"@, "-l"@))
            } else {
                Ok(
                    ParseState {
                        out: ArgsSpec { list: Option::Some(Seq::empty()), ..st.out },
                        mode: CollectMode::List,
                    },
                )
            }
        } else if is_list_exhaustive_tok(tok) {
            if idx > 0 {
                Err(ErrorSpec::MustBeFirst("--list-exhaustive"@, "-le"@))
            } else {
                Ok(
                    ParseState {
                        out: ArgsSpec {
                            list: Option::Some(Seq::empty()),
                            list_exhaustive: true,
                            ..st.out
                        },
                        mode: CollectMode::List,
                    },
                )
            }
        } else {
            match st.mode {
                CollectMode::Add => Ok(with_change(st, ChangeSpec::AddG(tok))),
                CollectMode::AddForce => Ok(with_change(st, ChangeSpec::AddGF(tok))),
                CollectMode::AddItem => Ok(with_change(st, ChangeSpec::AddI(tok))),
                CollectMode::Remove => Ok(with_change(st, ChangeSpec::RemoveG(tok))),
                CollectMode::RemoveItem => Ok(with_change(st, ChangeSpec::RemoveI(tok))),
                CollectMode::List => Ok(st),
                CollectMode::Idle => Err(ErrorSpec::UnknownCommand(tok)),
            }
        },
    }
}

/// Runs the scanner from position `i` in state `st` to the end of the tokens.
pub open spec fn parse_rec(args: Seq<Seq<char>>, i: int, st: ParseState) -> Result<
    ArgsSpec,
    ErrorSpec,
>
    decreases args.len() - i,
{
    if i < 0 || i >= args.len() {
        Ok(st.out)
    } else {
        match parse_step(st, args[i], i, args.len() as int) {
            Ok(st2) => parse_rec(args, i + 1, st2),
            Err(e) => Err(e),
        }
    }
}

/// What parsing an argument vector yields: the validated output, or the
/// first error the scan meets. An empty vector is itself an error.
pub open spec fn parse_args_spec(args: Seq<Seq<char>>) -> Result<ArgsSpec, ErrorSpec> {
    if args.len() == 0 {
        Err(ErrorSpec::NoCommand)
    } else {
        parse_rec(args, 0, init_state())
    }
}

impl Args {
    /// Parses the argument vector (without the program name) into a validated
    /// change-set and flag record, or the first error of the scan.
    pub fn parse(args: &Vec<String>) -> (r: Result<Args, Error>)
        ensures
            match r {
                Ok(a) => parse_args_spec(args.deep_view()) == Ok::<ArgsSpec, ErrorSpec>(a@),
                Err(e) => parse_args_spec(args.deep_view()) == Err::<ArgsSpec, ErrorSpec>(e@),
            },
    {
        let n: usize = args.len();
        if n == 0 {
            return Err(Error::NoCommand);
        }
        let mut changes: Vec<Change> = Vec::new();
        let mut create: bool = false;
        let mut version: bool = false;
        let mut help: bool = false;
        let mut clear: bool = false;
        let mut has_list: bool = false;
        let mut filters: Vec<String> = Vec::new();
        let mut list_exhaustive: bool = false;
        let mut mode: CollectMode = CollectMode::Idle;
        let mut i: usize = 0;
        let ghost dv = args.deep_view();
        proof {
            assert(dv.len() == n);
            assert(changes.deep_view() =~= Seq::<ChangeSpec>::empty());
        }
        while i < n
            invariant
                n == args@.len(),
                dv == args.deep_view(),
                dv.len() == n,
                n >= 1,
                i <= n,
                !has_list ==> filters@.len() == 0,
                parse_rec(dv, i as int, cur_state(changes, create, version, help, clear,
                    has_list, filters, list_exhaustive, mode)) == parse_rec(dv, 0, init_state()),
            decreases n - i,
        {
            let ghost st = cur_state(changes, create, version, help, clear, has_list,
                filters, list_exhaustive, mode);
            let arg = &args[i];
            proof {
                assert(dv[i as int] == args@[i as int]@);
            }
            if has_list {
                let ghost old_fs = filters.deep_view();
                filters.push(arg.clone());
                proof {
                    assert(filters.deep_view() =~= old_fs.push(arg@));
                }
            } else if str_eq(arg.as_str(), "--add") || str_eq(arg.as_str(), "-a") {
                mode = CollectMode::Add;
            } else if str_eq(arg.as_str(), "--add-item") || str_eq(arg.as_str(), "-ai") {
                mode = CollectMode::AddItem;
            } else if str_eq(arg.as_str(), "--force-add") || str_eq(arg.as_str(), "-fa") {
                mode = CollectMode::AddForce;
            } else if str_eq(arg.as_str(), "--remove") || str_eq(arg.as_str(), "-r") {
                mode = CollectMode::Remove;
            } else if str_eq(arg.as_str(), "--remove-item") || str_eq(arg.as_str(), "-ri") {
                mode = CollectMode::RemoveItem;
            } else if str_eq(arg.as_str(), "--create") || str_eq(arg.as_str(), "-c") {
                mode = CollectMode::Add;
                create = true;
            } else if str_eq(arg.as_str(), "--version") || str_eq(arg.as_str(), "-v") {
                if n > 1 {
                    return Err(
                        Error::MustBeAlone("--version".to_owned(), "-v".to_owned()),
                    );
                }
                mode = CollectMode::Idle;
                version = true;
            } else if str_eq(arg.as_str(), "--clear") || str_eq(arg.as_str(), "-cl") {
                if n > 1 {
                    return Err(Error::MustBeAlone("--clear".to_owned(), "-cl".to_owned()));
                }
                mode = CollectMode::Idle;
                clear = true;
            } else if str_eq(arg.as_str(), "--help") || str_eq(arg.as_str(), "-h") {
                if n > 1 {
                    return Err(Error::MustBeAlone("--help".to_owned(), "-h".to_owned()));
                }
                mode = CollectMode::Idle;
                help = true;
            } else if str_eq(arg.as_str(), "--list") || str_eq(arg.as_str(), "-l") {
                if i > 0 {
                    return Err(Error::MustBeFirst("--list".to_owned(), "-l".to_owned()));
                }
                mode = CollectMode::List;
                has_list = true;
                proof {
                    assert(filters.deep_view() =~= Seq::<Seq<char>>::empty());
                }
            } else if str_eq(arg.as_str(), "--list-exhaustive") || str_eq(arg.as_str(), "-le") {
                if i > 0 {
                    return Err(
                        Error::MustBeFirst("--list-exhaustive".to_owned(), "-le".to_owned()),
                    );
                }
                mode = CollectMode::List;
                has_list = true;
                list_exhaustive = true;
                proof {
                    assert(filters.deep_view() =~= Seq::<Seq<char>>::empty());
                }
            } else {
                let ghost old_cs = changes.deep_view();
                match mode {
                    CollectMode::Add => changes.push(Change::AddG(arg.clone())),
                    CollectMode::AddForce => changes.push(Change::AddGF(arg.clone())),
                    CollectMode::AddItem => changes.push(Change::AddI(arg.clone())),
                    CollectMode::Remove => changes.push(Change::RemoveG(arg.clone())),
                    CollectMode::RemoveItem => changes.push(Change::RemoveI(arg.clone())),
                    CollectMode::List => {},
                    CollectMode::Idle => {
                        return Err(Error::UnknownCommand(arg.clone()));
                    },
                }
                proof {
                    match mode {
                        CollectMode::Add => assert(changes.deep_view() =~= old_cs.push(
                            ChangeSpec::AddG(arg@),
                        )),
                        CollectMode::AddForce => assert(changes.deep_view() =~= old_cs.push(
                            ChangeSpec::AddGF(arg@),
                        )),
                        CollectMode::AddItem => assert(changes.deep_view() =~= old_cs.push(
                            ChangeSpec::AddI(arg@),
                        )),
                        CollectMode::Remove => assert(changes.deep_view() =~= old_cs.push(
                            ChangeSpec::RemoveG(arg@),
                        )),
                        CollectMode::RemoveItem => assert(changes.deep_view() =~= old_cs.push(
                            ChangeSpec::RemoveI(arg@),
                        )),
                        _ => {},
                    }
                }
            }
            i += 1;
        }
        let list: Option<Vec<String>> = if has_list {
            Some(filters)
        } else {
            None
        };
        let a = Args { changes, create, version, help, list, list_exhaustive, clear };
        Ok(a)
    }
}

/// `n` spaces.
pub open spec fn spaces(n: nat) -> Seq<char> {
    Seq::new(n, |i: int| ' ')
}

/// What `arguments` stands for as a sequence, when present.
pub open spec fn opt_str_view(arguments: Option<&str>) -> Option<Seq<char>> {
    match arguments {
        Option::Some(a) => Option::Some(a@),
        Option::None => Option::None,
    }
}

/// One line of the command overview: four leading spaces, the long and short
/// spelling (plus a bracketed argument name, when given), padding out to
/// `min_width` columns (at least one space), then the description.
pub open spec fn command_line_text(
    long: Seq<char>,
    short: Seq<char>,
    arguments: Option<Seq<char>>,
    info: Seq<char>,
    min_width: nat,
) -> Seq<char> {
    let cmd = long + ", "@ + short + (match arguments {
        Option::Some(a) => " ["@ + a + "]"@,
        Option::None => Seq::<char>::empty(),
    });
    let pad = if min_width > cmd.len() {
        (min_width - cmd.len()) as nat
    } else {
        1nat
    };
    spaces(4) + cmd + spaces(pad) + info + "\n"@
}

fn repeat_spaces(n: usize) -> (r: String)
    ensures
        r@ == spaces(n as nat),
{
    let mut out = String::new();
    let mut i: usize = 0;
    proof {
        reveal_strlit(" ");
        assert(out@ =~= spaces(0));
    }
    while i < n
        invariant
            i <= n,
            out@ == spaces(i as nat),
        decreases n - i,
    {
        out.append(" ");
        proof {
            reveal_strlit(" ");
            assert(out@ =~= spaces(i as nat + 1));
        }
        i += 1;
    }
    out
}

impl Args {
    /// Appends one formatted command-overview line to `string`.
    pub fn add_command_to_string(
        string: &mut String,
        long: &str,
        short: &str,
        arguments: Option<&str>,
        info: &str,
        min_width: usize,
    )
        ensures
            final(string)@ == old(string)@ + command_line_text(
                long@,
                short@,
                opt_str_view(arguments),
                info@,
                min_width as nat,
            ),
    {
        let mut cmd = String::new();
        cmd.append(long);
        cmd.append(", ");
        cmd.append(short);
        match arguments {
            Option::Some(a) => {
                cmd.append(" [");
                cmd.append(a);
                cmd.append("]");
            },
            Option::None => {},
        }
        let width: usize = cmd.as_str().unicode_len();
        let right_pad: usize = if min_width > width {
            min_width - width
        } else {
            1
        };
        let left = repeat_spaces(4);
        let right = repeat_spaces(right_pad);
        string.append(left.as_str());
        string.append(cmd.as_str());
        string.append(right.as_str());
        string.append(info);
        string.append("\n");
    }
}

/// The scanner state the executable locals stand for.
pub open spec fn cur_state(
    changes: Vec<Change>,
    create: bool,
    version: bool,
    help: bool,
    clear: bool,
    has_list: bool,
    filters: Vec<String>,
    list_exhaustive: bool,
    mode: CollectMode,
) -> ParseState {
    ParseState {
        out: ArgsSpec {
            changes: changes.deep_view(),
            create,
            version,
            help,
            list: if has_list {
                Option::Some(filters.deep_view())
            } else {
                Option::None
            },
            list_exhaustive,
            clear,
        },
        mode,
    }
}

} // verus!
