//! The `avd` subcommand's logic: which command was asked for, the
//! arguments of `create`, `avdmanager list device` output, the device and
//! API pickers, and the `target=` repair of an AVD's `.ini` file.

use vstd::prelude::*;
use crate::install::first_part;
use crate::install::first_part_of;
use crate::numbers::{parse_unsigned, parse_usize};
use crate::text::{
    chars_eq, chars_of, copy_chars, find_chars, find_from, lemma_find_from, lines, lines_of, slice_chars,
    lemma_find_from_first, lemma_split_str_before, lemma_split_str_shift, lemma_trim_start_indent, occurs_at, is_whitespace, trim_start, trim_end, split_on_str, split_str_from, starts_with, strip_cr, lemma_lines_have_no_break, lemma_lines_of_terminated, starts_with_chars, string_of, terminated, trim,
    trim_chars,
};

verus! {

/// The views of a list of arguments.
pub open spec fn arg_views(args: Seq<String>) -> Seq<Seq<char>> {
    args.map_values(|a: String| a@)
}

/// Whether `s` spells `lit`.
fn is_word(s: &[char], lit: &str) -> (b: bool)
    ensures
        b == (s@ == lit@),
{
    let l = chars_of(lit);
    chars_eq(s, l.as_slice())
}

/// A copy of `args[from..]`.
fn args_from(args: &[String], from: usize) -> (v: Vec<String>)
    requires
        from <= args@.len(),
    ensures
        arg_views(v@) == arg_views(args@).skip(from as int),
{
    let mut v: Vec<String> = Vec::new();
    let mut i: usize = from;
    while i < args.len()
        invariant
            from <= i <= args@.len(),
            arg_views(v@) == arg_views(args@).subrange(from as int, i as int),
        decreases args.len() - i,
    {
        let a = args[i].clone();
        let ghost old_v = arg_views(v@);
        v.push(a);
        assert(arg_views(v@) =~= old_v.push(args@[i as int]@));
        assert(arg_views(args@).subrange(from as int, i + 1) =~= arg_views(args@).subrange(
            from as int,
            i as int,
        ).push(args@[i as int]@));
        i += 1;
    }
    assert(arg_views(args@).subrange(from as int, args@.len() as int) =~= arg_views(args@).skip(
        from as int,
    ));
    v
}

/// The `avd` subcommand asked for.
#[derive(Debug)]
pub enum AvdCommand {
    /// `list` / `ls`.
    List,
    /// `create` / `new`, with the arguments after it.
    Create(Vec<String>),
    /// `delete` / `remove` / `rm`, with the arguments after it.
    Delete(Vec<String>),
    /// `start` / `run`, with the arguments after it.
    Start(Vec<String>),
    /// No command, `help`, `--help` or `-h`.
    Help,
    /// Anything else.
    Unknown(String),
}

/// Which command a first argument names.
pub open spec fn names_list(c: Seq<char>) -> bool {
    c == "list"@ || c == "ls"@
}

pub open spec fn names_create(c: Seq<char>) -> bool {
    c == "create"@ || c == "new"@
}

pub open spec fn names_delete(c: Seq<char>) -> bool {
    c == "delete"@ || c == "remove"@ || c == "rm"@
}

pub open spec fn names_start(c: Seq<char>) -> bool {
    c == "start"@ || c == "run"@
}

pub open spec fn names_help(c: Seq<char>) -> bool {
    c == "--help"@ || c == "-h"@ || c == "help"@
}

/// The documented command words select their commands: `list` and `ls`
/// list, `create` and `new` create, `delete`, `remove` and `rm` delete,
/// `start` and `run` start, `help`, `--help` and `-h` ask for help; each
/// word selects exactly one command.
pub proof fn law_command_words()
    ensures
        names_list("list"@) && names_list("ls"@),
        names_create("create"@) && names_create("new"@),
        !names_list("create"@) && !names_list("new"@),
        names_delete("delete"@) && names_delete("remove"@) && names_delete("rm"@),
        !names_list("delete"@) && !names_list("remove"@) && !names_list("rm"@),
        !names_create("delete"@) && !names_create("remove"@) && !names_create("rm"@),
        names_start("start"@) && names_start("run"@),
        !names_list("start"@) && !names_list("run"@),
        !names_create("start"@) && !names_create("run"@),
        !names_delete("start"@) && !names_delete("run"@),
        names_help("help"@) && names_help("--help"@) && names_help("-h"@),
        !names_list("help"@) && !names_create("help"@) && !names_delete("help"@) && !names_start("help"@),
        !names_list("--help"@) && !names_create("--help"@) && !names_delete("--help"@) && !names_start("--help"@),
        !names_list("-h"@) && !names_create("-h"@) && !names_delete("-h"@) && !names_start("-h"@),
{
    reveal_strlit("list");
    reveal_strlit("ls");
    reveal_strlit("create");
    reveal_strlit("new");
    reveal_strlit("delete");
    reveal_strlit("remove");
    reveal_strlit("rm");
    reveal_strlit("start");
    reveal_strlit("run");
    reveal_strlit("help");
    reveal_strlit("--help");
    reveal_strlit("-h");
    assert("list"@[0] != "new"@[0]);
    assert("ls"@[0] != "new"@[0]);
    assert("ls"@[0] != "rm"@[0]);
    assert("ls"@[0] != "-h"@[0]);
    assert("create"@[0] != "delete"@[0]);
    assert("create"@[0] != "remove"@[0]);
    assert("create"@[0] != "--help"@[0]);
    assert("delete"@[0] != "remove"@[0]);
    assert("new"@[0] != "run"@[0]);
    assert("rm"@[0] != "-h"@[0]);
    assert("list"@[0] != "help"@[0]);
    assert("start"@[0] != "remove"@[0]);
    assert("start"@[0] != "create"@[0]);
    assert("start"@[0] != "delete"@[0]);
    assert("run"@[1] != "new"@[1]);
    assert("help"@[0] != "run"@[0]);
    assert("new"@[0] != "run"@[0]);
}

/// The `avd` command that `args` (the words after `avd`) ask for.
pub fn avd_command(args: &[String]) -> (c: AvdCommand)
    ensures
        args@.len() == 0 ==> c is Help,
        args@.len() > 0 ==> {
            let w = args@[0]@;
            let rest = arg_views(args@).skip(1);
            if names_list(w) {
                c is List
            } else if names_create(w) {
                c matches AvdCommand::Create(r) && arg_views(r@) == rest
            } else if names_delete(w) {
                c matches AvdCommand::Delete(r) && arg_views(r@) == rest
            } else if names_start(w) {
                c matches AvdCommand::Start(r) && arg_views(r@) == rest
            } else if names_help(w) {
                c is Help
            } else {
                c matches AvdCommand::Unknown(u) && u@ == w
            }
        },
        args@.len() > 0 && (args@[0]@ == "list"@ || args@[0]@ == "ls"@) ==> c is List,
        args@.len() > 0 && (args@[0]@ == "create"@ || args@[0]@ == "new"@) ==> (c matches AvdCommand::Create(
            r,
        ) && arg_views(r@) == arg_views(args@).skip(1)),
        args@.len() > 0 && (args@[0]@ == "delete"@ || args@[0]@ == "remove"@ || args@[0]@ == "rm"@)
            ==> (c matches AvdCommand::Delete(r) && arg_views(r@) == arg_views(args@).skip(1)),
        args@.len() > 0 && (args@[0]@ == "start"@ || args@[0]@ == "run"@) ==> (c matches AvdCommand::Start(
            r,
        ) && arg_views(r@) == arg_views(args@).skip(1)),
        args@.len() > 0 && (args@[0]@ == "help"@ || args@[0]@ == "--help"@ || args@[0]@ == "-h"@)
            ==> c is Help,
{
    proof {
        law_command_words();
    }
    if args.len() == 0 {
        return AvdCommand::Help;
    }
    let w = chars_of(args[0].as_str());
    if is_word(w.as_slice(), "list") || is_word(w.as_slice(), "ls") {
        AvdCommand::List
    } else if is_word(w.as_slice(), "create") || is_word(w.as_slice(), "new") {
        AvdCommand::Create(args_from(args, 1))
    } else if is_word(w.as_slice(), "delete") || is_word(w.as_slice(), "remove") || is_word(
        w.as_slice(),
        "rm",
    ) {
        AvdCommand::Delete(args_from(args, 1))
    } else if is_word(w.as_slice(), "start") || is_word(w.as_slice(), "run") {
        AvdCommand::Start(args_from(args, 1))
    } else if is_word(w.as_slice(), "--help") || is_word(w.as_slice(), "-h") || is_word(
        w.as_slice(),
        "help",
    ) {
        AvdCommand::Help
    } else {
        AvdCommand::Unknown(args[0].clone())
    }
}

/// What went wrong with an `avd` command line.
#[derive(Debug)]
pub enum AvdError {
    /// The first word names no `avd` command.
    UnknownCommand(String),
    /// `--api` was the last word.
    ApiNeedsValue,
    /// `--device` was the last word.
    DeviceNeedsValue,
    /// A flag `create` does not know, or a second name.
    UnknownArgument(String),
    /// `delete` without a name.
    DeleteNeedsName,
    /// `start` without a name.
    StartNeedsName,
    /// The AVD name is blank.
    EmptyName,
}

/// An `AvdError` as a value.
pub enum AvdErrorView {
    UnknownCommand(Seq<char>),
    ApiNeedsValue,
    DeviceNeedsValue,
    UnknownArgument(Seq<char>),
    DeleteNeedsName,
    StartNeedsName,
    EmptyName,
}

impl View for AvdError {
    type V = AvdErrorView;

    open spec fn view(&self) -> AvdErrorView {
        match self {
            AvdError::UnknownCommand(c) => AvdErrorView::UnknownCommand(c@),
            AvdError::ApiNeedsValue => AvdErrorView::ApiNeedsValue,
            AvdError::DeviceNeedsValue => AvdErrorView::DeviceNeedsValue,
            AvdError::UnknownArgument(a) => AvdErrorView::UnknownArgument(a@),
            AvdError::DeleteNeedsName => AvdErrorView::DeleteNeedsName,
            AvdError::StartNeedsName => AvdErrorView::StartNeedsName,
            AvdError::EmptyName => AvdErrorView::EmptyName,
        }
    }
}

/// The `name`, `--api` and `--device` values of `avd create`.
pub type CreateArgsView = (Option<Seq<char>>, Option<Seq<char>>, Option<Seq<char>>);

/// `avd create`'s arguments read from position `i` on, with what was read
/// before: `--api <level>` and `--device <id>` take the next word whatever
/// it is (the last one given wins), the first word not starting with `-`
/// is the name; anything else is refused.
pub open spec fn create_args_from(
    args: Seq<Seq<char>>,
    i: int,
    name: Option<Seq<char>>,
    api: Option<Seq<char>>,
    device: Option<Seq<char>>,
) -> Result<CreateArgsView, AvdErrorView>
    decreases args.len() - i,
{
    if i < 0 || i >= args.len() {
        Ok((name, api, device))
    } else {
        let a = args[i];
        if a == "--api"@ {
            if i + 1 < args.len() {
                create_args_from(args, i + 2, name, Some(args[i + 1]), device)
            } else {
                Err(AvdErrorView::ApiNeedsValue)
            }
        } else if a == "--device"@ {
            if i + 1 < args.len() {
                create_args_from(args, i + 2, name, api, Some(args[i + 1]))
            } else {
                Err(AvdErrorView::DeviceNeedsValue)
            }
        } else if !starts_with(a, "-"@) && name is None {
            create_args_from(args, i + 1, Some(a), api, device)
        } else {
            Err(AvdErrorView::UnknownArgument(a))
        }
    }
}

/// Where the name stands among the flags does not matter: a name not
/// starting with `-`, before or after `--api <v>` (or `--device <v>`),
/// reads as that name with that value.
pub proof fn law_name_anywhere(name: Seq<char>, v: Seq<char>)
    requires
        !starts_with(name, "-"@),
    ensures
        create_args_from(seq!["--api"@, v, name], 0, None, None, None) == Ok::<CreateArgsView, AvdErrorView>(
            (Some(name), Some(v), None),
        ),
        create_args_from(seq![name, "--api"@, v], 0, None, None, None) == Ok::<CreateArgsView, AvdErrorView>(
            (Some(name), Some(v), None),
        ),
        create_args_from(seq!["--device"@, v, name], 0, None, None, None) == Ok::<CreateArgsView, AvdErrorView>(
            (Some(name), None, Some(v)),
        ),
        create_args_from(seq![name, "--device"@, v], 0, None, None, None) == Ok::<CreateArgsView, AvdErrorView>(
            (Some(name), None, Some(v)),
        ),
{
    reveal_strlit("--api");
    reveal_strlit("--device");
    reveal_strlit("-");
    assert("--api"@.take(1) =~= "-"@);
    assert("--device"@.take(1) =~= "-"@);
    assert(name != "--api"@);
    assert(name != "--device"@);
    assert("--api"@ != "--device"@) by {
        assert("--api"@[2] != "--device"@[2]);
    }
    let a1 = seq!["--api"@, v, name];
    assert(a1[0] == "--api"@ && a1[2] == name);
    assert(create_args_from(a1, 0, None, None, None) == create_args_from(a1, 2, None, Some(v), None));
    assert(create_args_from(a1, 2, None, Some(v), None) == create_args_from(a1, 3, Some(name), Some(v), None));
    let a2 = seq![name, "--api"@, v];
    assert(a2[0] == name && a2[1] == "--api"@ && a2[2] == v);
    assert(create_args_from(a2, 0, None, None, None) == create_args_from(a2, 1, Some(name), None, None));
    assert(create_args_from(a2, 1, Some(name), None, None) == create_args_from(a2, 3, Some(name), Some(v), None));
    let a3 = seq!["--device"@, v, name];
    assert(a3[0] == "--device"@ && a3[2] == name);
    assert(create_args_from(a3, 0, None, None, None) == create_args_from(a3, 2, None, None, Some(v)));
    assert(create_args_from(a3, 2, None, None, Some(v)) == create_args_from(a3, 3, Some(name), None, Some(v)));
    let a4 = seq![name, "--device"@, v];
    assert(a4[0] == name && a4[1] == "--device"@ && a4[2] == v);
    assert(create_args_from(a4, 0, None, None, None) == create_args_from(a4, 1, Some(name), None, None));
    assert(create_args_from(a4, 1, Some(name), None, None) == create_args_from(a4, 3, Some(name), None, Some(v)));
}

pub open spec fn opt_string(o: Option<String>) -> Option<Seq<char>> {
    match o {
        Some(s) => Some(s@),
        None => None,
    }
}

pub open spec fn create_args_view(
    r: Result<(Option<String>, Option<String>, Option<String>), AvdError>,
) -> Result<CreateArgsView, AvdErrorView> {
    match r {
        Ok(t) => Ok((opt_string(t.0), opt_string(t.1), opt_string(t.2))),
        Err(e) => Err(e@),
    }
}

/// Reads `avd create [name] [--api <level>] [--device <id>]`.
pub fn parse_create_args(args: &[String]) -> (r: Result<
    (Option<String>, Option<String>, Option<String>),
    AvdError,
>)
    ensures
        create_args_view(r) == create_args_from(arg_views(args@), 0, None, None, None),
{
    let ghost av = arg_views(args@);
    let mut name: Option<String> = None;
    let mut api: Option<String> = None;
    let mut device: Option<String> = None;
    let mut i: usize = 0;
    let dash = chars_of("-");
    while i < args.len()
        invariant
            av == arg_views(args@),
            dash@ == "-"@,
            i <= args@.len(),
            create_args_from(av, 0, None, None, None) == create_args_from(
                av,
                i as int,
                opt_string(name),
                opt_string(api),
                opt_string(device),
            ),
        decreases args.len() - i,
    {
        let a = chars_of(args[i].as_str());
        assert(av[i as int] == a@);
        if is_word(a.as_slice(), "--api") {
            i += 1;
            if i >= args.len() {
                return Err(AvdError::ApiNeedsValue);
            }
            api = Some(args[i].clone());
        } else if is_word(a.as_slice(), "--device") {
            i += 1;
            if i >= args.len() {
                return Err(AvdError::DeviceNeedsValue);
            }
            device = Some(args[i].clone());
        } else if !starts_with_chars(a.as_slice(), dash.as_slice()) && name.is_none() {
            name = Some(args[i].clone());
        } else {
            return Err(AvdError::UnknownArgument(args[i].clone()));
        }
        i += 1;
    }
    Ok((name, api, device))
}

/// A device profile `avdmanager` offers: the id `-d` expects and a label
/// for the picker.
#[derive(Debug)]
pub struct DeviceProfile {
    pub id: String,
    pub label: String,
}

/// What a block of `avdmanager list device` output says so far: the quoted
/// device id of its last `id:` line that has one, and the name of its last
/// `Name:` line.
pub open spec fn device_block(ls: Seq<Seq<char>>) -> (Option<Seq<char>>, Option<Seq<char>>)
    decreases ls.len(),
{
    if ls.len() == 0 {
        (None, None)
    } else {
        let prev = device_block(ls.drop_last());
        let line = trim(ls.last());
        if starts_with(line, "id:"@) {
            let rest = line.skip(3);
            match find_from(rest, seq!['"'], 0) {
                Some(st) => match find_from(rest, seq!['"'], st + 1) {
                    Some(en) => (Some(rest.subrange(st + 1, en)), prev.1),
                    None => prev,
                },
                None => prev,
            }
        } else if starts_with(line, "Name:"@) {
            (prev.0, Some(trim(line.skip(5))))
        } else {
            prev
        }
    }
}

/// The label of a device: `<name> (<id>)`.
pub open spec fn device_label(name: Seq<char>, id: Seq<char>) -> Seq<char> {
    name + " ("@ + id + ")"@
}

/// The profiles of the blocks, in order: each block with both an id and a
/// name gives `(id, label)`.
pub open spec fn device_profiles(blocks: Seq<Seq<char>>) -> Seq<(Seq<char>, Seq<char>)>
    decreases blocks.len(),
{
    if blocks.len() == 0 {
        Seq::empty()
    } else {
        let prev = device_profiles(blocks.drop_last());
        match device_block(lines(blocks.last())) {
            (Some(id), Some(name)) => prev.push((id, device_label(name, id))),
            _ => prev,
        }
    }
}

pub open spec fn profile_views(ds: Seq<DeviceProfile>) -> Seq<(Seq<char>, Seq<char>)> {
    ds.map_values(|d: DeviceProfile| (d.id@, d.label@))
}

/// The device profiles `avdmanager list device` prints: blocks separated
/// by `---------`, each with an `id: N or "<id>"` line and a `Name:` line.
pub fn parse_device_list(text: &str) -> (devices: Vec<DeviceProfile>)
    ensures
        profile_views(devices@) == device_profiles(split_str_from(text@, "---------"@, 0)),
{
    let tc = chars_of(text);
    let sep = chars_of("---------");
    let id_prefix = chars_of("id:");
    let name_prefix = chars_of("Name:");
    let quote: Vec<char> = vec!['"'];
    assert(quote@ =~= seq!['"']);
    proof {
        reveal_strlit("---------");
        reveal_strlit("id:");
        reveal_strlit("Name:");
    }
    let mut devices: Vec<DeviceProfile> = Vec::new();
    if sep.len() == 0 {
        return devices;
    }
    let blocks = split_on_str(tc.as_slice(), sep.as_slice());
    let ghost bv = blocks.deep_view();
    let mut b: usize = 0;
    assert(bv.take(0) =~= Seq::<Seq<char>>::empty());
    while b < blocks.len()
        invariant
            bv == blocks.deep_view(),
            bv == split_str_from(text@, "---------"@, 0),
            id_prefix@ == "id:"@,
            name_prefix@ == "Name:"@,
            id_prefix@.len() == 3,
            name_prefix@.len() == 5,
            quote@ == seq!['"'],
            b <= blocks.len(),
            profile_views(devices@) == device_profiles(bv.take(b as int)),
        decreases blocks.len() - b,
    {
        assert(blocks@[b as int].deep_view() =~= blocks@[b as int]@);
        let ls = lines_of(blocks[b].as_slice());
        let ghost lv = ls.deep_view();
        let mut id: Option<Vec<char>> = None;
        let mut name: Option<Vec<char>> = None;
        let mut k: usize = 0;
        assert(lv.take(0) =~= Seq::<Seq<char>>::empty());
        while k < ls.len()
            invariant
                lv == ls.deep_view(),
                id_prefix@ == "id:"@,
                name_prefix@ == "Name:"@,
                id_prefix@.len() == 3,
                name_prefix@.len() == 5,
                quote@ == seq!['"'],
                k <= ls.len(),
                device_block(lv.take(k as int)) == (
                    match id {
                        Some(v) => Some(v@),
                        None => None::<Seq<char>>,
                    },
                    match name {
                        Some(v) => Some(v@),
                        None => None::<Seq<char>>,
                    },
                ),
            decreases ls.len() - k,
        {
            assert(lv.take(k + 1).drop_last() =~= lv.take(k as int));
            assert(ls@[k as int].deep_view() =~= ls@[k as int]@);
            let line = trim_chars(ls[k].as_slice());
            if starts_with_chars(line.as_slice(), id_prefix.as_slice()) {
                let rest = slice_chars(line.as_slice(), 3, line.len());
                assert(rest@ =~= line@.skip(3));
                match find_chars(rest.as_slice(), quote.as_slice(), 0) {
                    Some(st) => {
                        proof {
                            lemma_find_from(rest@, quote@, 0);
                            assert(st + 1 <= rest@.len());
                        }
                        match find_chars(rest.as_slice(), quote.as_slice(), st + 1) {
                            Some(en) => {
                                proof {
                                    lemma_find_from(rest@, quote@, st + 1);
                                }
                                id = Some(slice_chars(rest.as_slice(), st + 1, en));
                            },
                            None => {},
                        }
                    },
                    None => {},
                }
            } else if starts_with_chars(line.as_slice(), name_prefix.as_slice()) {
                let rest = slice_chars(line.as_slice(), 5, line.len());
                assert(rest@ =~= line@.skip(5));
                name = Some(trim_chars(rest.as_slice()));
            }
            k += 1;
        }
        assert(lv.take(ls.len() as int) =~= lv);
        assert(bv.take(b + 1).drop_last() =~= bv.take(b as int));
        match (id, name) {
            (Some(i), Some(n)) => {
                let mut label = n;
                label.push(' ');
                label.push('(');
                let mut j: usize = 0;
                let ghost base = label@;
                while j < i.len()
                    invariant
                        j <= i.len(),
                        label@ == base + i@.take(j as int),
                    decreases i.len() - j,
                {
                    label.push(i[j]);
                    assert(i@.take(j + 1) =~= i@.take(j as int).push(i@[j as int]));
                    j += 1;
                }
                label.push(')');
                assert(label@ =~= device_label(n@, i@)) by {
                    assert(i@.take(i.len() as int) =~= i@);
                    assert(" ("@ =~= seq![' ', '(']) by {
                        reveal_strlit(" (");
                    }
                    assert(")"@ =~= seq![')']) by {
                        reveal_strlit(")");
                    }
                }
                let ghost old_devices = profile_views(devices@);
                devices.push(DeviceProfile { id: string_of(i.as_slice()), label: string_of(label.as_slice()) });
                assert(profile_views(devices@) =~= old_devices.push((i@, device_label(n@, i@))));
            },
            _ => {},
        }
        b += 1;
    }
    assert(bv.take(blocks.len() as int) =~= bv);
    devices
}

/// The start of the line that records an AVD's platform.
pub open spec fn target_prefix() -> Seq<char> {
    "target=android-"@
}

/// The line an AVD made from `system_image` should carry: its major only,
/// read the tolerant way (`37.0` gives `target=android-37`).
pub open spec fn target_line(system_image: Seq<char>) -> Seq<char> {
    target_prefix() + first_part(system_image)
}

/// A `target=android-...` line other than the correct one.
pub open spec fn is_stale_target(l: Seq<char>, correct: Seq<char>) -> bool {
    starts_with(l, target_prefix()) && l != correct
}

pub open spec fn repaired_line(l: Seq<char>, correct: Seq<char>) -> Seq<char> {
    if is_stale_target(l, correct) {
        correct
    } else {
        l
    }
}

pub open spec fn repaired_lines(ls: Seq<Seq<char>>, correct: Seq<char>) -> Seq<Seq<char>> {
    ls.map_values(|l: Seq<char>| repaired_line(l, correct))
}

pub open spec fn has_stale_target(ls: Seq<Seq<char>>, correct: Seq<char>) -> bool {
    exists|i: int| 0 <= i < ls.len() && is_stale_target(#[trigger] ls[i], correct)
}

/// An AVD `.ini` whose `target=` line(s) avdmanager got wrong for a
/// decimal system image id, repaired: every `target=android-` line that is
/// not the correct one is replaced by it. `None` when nothing needs to
/// change.
pub fn patch_avd_target(contents: &str, system_image: &str) -> (r: Option<String>)
    ensures
        ({
            let ls = lines(contents@);
            let correct = target_line(system_image@);
            if has_stale_target(ls, correct) {
                r matches Some(s) && s@ == terminated(repaired_lines(ls, correct))
            } else {
                r is None
            }
        }),
{
    let cc = chars_of(contents);
    let sc = chars_of(system_image);
    let major = first_part_of(sc.as_slice());
    let prefix = chars_of("target=android-");
    let mut correct = copy_chars(prefix.as_slice());
    let mut j: usize = 0;
    while j < major.len()
        invariant
            j <= major.len(),
            correct@ == prefix@ + major@.take(j as int),
        decreases major.len() - j,
    {
        correct.push(major[j]);
        assert(major@.take(j + 1) =~= major@.take(j as int).push(major@[j as int]));
        assert(prefix@ + major@.take(j + 1) =~= (prefix@ + major@.take(j as int)).push(major@[j as int]));
        j += 1;
    }
    assert(major@.take(major.len() as int) =~= major@);
    let ghost cor = correct@;
    assert(cor == target_line(system_image@));
    let ls = lines_of(cc.as_slice());
    let ghost lv = ls.deep_view();
    let mut out: Vec<char> = Vec::new();
    let mut changed = false;
    let mut i: usize = 0;
    assert(lv.take(0) =~= Seq::<Seq<char>>::empty());
    while i < ls.len()
        invariant
            lv == ls.deep_view(),
            prefix@ == target_prefix(),
            correct@ == cor,
            i <= ls.len(),
            out@ == terminated(repaired_lines(lv.take(i as int), cor)),
            changed == has_stale_target(lv.take(i as int), cor),
        decreases ls.len() - i,
    {
        assert(ls@[i as int].deep_view() =~= ls@[i as int]@);
        let l = ls[i].as_slice();
        let stale = starts_with_chars(l, prefix.as_slice()) && !chars_eq(l, correct.as_slice());
        let ghost old_out = out@;
        let replacement: &[char] = if stale {
            correct.as_slice()
        } else {
            l
        };
        let mut k: usize = 0;
        while k < replacement.len()
            invariant
                k <= replacement.len(),
                out@ == old_out + replacement@.take(k as int),
            decreases replacement.len() - k,
        {
            out.push(replacement[k]);
            assert(replacement@.take(k + 1) =~= replacement@.take(k as int).push(replacement@[k as int]));
            k += 1;
        }
        out.push('\n');
        proof {
            let nt = lv.take(i + 1);
            assert(nt.drop_last() =~= lv.take(i as int));
            assert(repaired_lines(nt, cor).drop_last() =~= repaired_lines(lv.take(i as int), cor));
            assert(replacement@.take(replacement@.len() as int) =~= replacement@);
            assert(out@ =~= terminated(repaired_lines(nt, cor)));
            if stale {
                assert(is_stale_target(nt[i as int], cor));
            }
            if has_stale_target(nt, cor) && !stale {
                let w = choose|w: int| 0 <= w < nt.len() && is_stale_target(#[trigger] nt[w], cor);
                assert(lv.take(i as int)[w] == nt[w]);
            }
            if has_stale_target(lv.take(i as int), cor) {
                let w = choose|w: int| 0 <= w < i && is_stale_target(#[trigger] lv.take(i as int)[w], cor);
                assert(nt[w] == lv.take(i as int)[w]);
            }
        }
        changed = changed || stale;
        i += 1;
    }
    assert(lv.take(ls.len() as int) =~= lv);
    if changed {
        Some(string_of(out.as_slice()))
    } else {
        None
    }
}

impl AvdError {
    /// The message shown for this error.
    pub fn message(&self) -> (m: String)
        ensures
            match self {
                AvdError::UnknownCommand(c) => m@ == "unknown `avd` command '"@ + c@
                    + "' \u{2014} run `avm android avd --help`"@,
                AvdError::ApiNeedsValue => m@ == "--api requires a value"@,
                AvdError::DeviceNeedsValue => m@ == "--device requires a value"@,
                AvdError::UnknownArgument(a) => m@ == "unknown argument '"@ + a@ + "'"@,
                AvdError::DeleteNeedsName => m@ == "usage: avm android avd delete <name>"@,
                AvdError::StartNeedsName => m@
                    == "usage: avm android avd start <name> [-- extra emulator args]"@,
                AvdError::EmptyName => m@ == "AVD name can't be empty"@,
            },
    {
        match self {
            AvdError::UnknownCommand(c) => {
                let mut m = String::from_str("unknown `avd` command '");
                m.append(c.as_str());
                m.append("' \u{2014} run `avm android avd --help`");
                m
            },
            AvdError::ApiNeedsValue => String::from_str("--api requires a value"),
            AvdError::DeviceNeedsValue => String::from_str("--device requires a value"),
            AvdError::UnknownArgument(a) => {
                let mut m = String::from_str("unknown argument '");
                m.append(a.as_str());
                m.append("'");
                m
            },
            AvdError::DeleteNeedsName => String::from_str("usage: avm android avd delete <name>"),
            AvdError::StartNeedsName => String::from_str(
                "usage: avm android avd start <name> [-- extra emulator args]",
            ),
            AvdError::EmptyName => String::from_str("AVD name can't be empty"),
        }
    }
}

/// A numbered-list choice: the typed (trimmed) answer `1..=count` as a
/// 0-based index; `None` for anything else.
pub fn parse_choice(input: &str, count: usize) -> (r: Option<usize>)
    ensures
        match parse_unsigned(input@, usize::MAX as nat) {
            Some(n) => if 1 <= n <= count {
                r == Some((n - 1) as usize)
            } else {
                r is None
            },
            None => r is None,
        },
        r matches Some(i) ==> i < count,
{
    let ic = chars_of(input);
    match parse_usize(ic.as_slice()) {
        Some(n) => {
            if 1 <= n && n <= count {
                Some(n - 1)
            } else {
                None
            }
        },
        None => None,
    }
}

/// The first entry of the device picker: keep avdmanager's default.
pub open spec fn skip_device_label() -> Seq<char> {
    "(skip \u{2014} use avdmanager's default profile)"@
}

/// The device picker's entries: skipping, then each profile's label.
pub fn device_picker_labels(devices: &[DeviceProfile]) -> (labels: Vec<String>)
    ensures
        labels@.len() == devices@.len() + 1,
        labels@[0]@ == skip_device_label(),
        forall|i: int| 0 <= i < devices@.len() ==> #[trigger] labels@[i + 1]@ == devices@[i].label@,
{
    let mut labels: Vec<String> = Vec::new();
    labels.push(String::from_str("(skip \u{2014} use avdmanager's default profile)"));
    let mut i: usize = 0;
    while i < devices.len()
        invariant
            i <= devices@.len(),
            labels@.len() == i + 1,
            labels@[0]@ == skip_device_label(),
            forall|k: int| 0 <= k < i ==> #[trigger] labels@[k + 1]@ == devices@[k].label@,
        decreases devices.len() - i,
    {
        labels.push(devices[i].label.clone());
        i += 1;
    }
    labels
}

/// The device a picker choice stands for: none for the first entry, else
/// the profile's id.
pub fn picked_device(devices: &[DeviceProfile], choice: usize) -> (d: Option<String>)
    requires
        choice <= devices@.len(),
    ensures
        choice == 0 ==> d is None,
        choice > 0 ==> (d matches Some(id) && id@ == devices@[choice - 1].id@),
{
    if choice == 0 {
        None
    } else {
        Some(devices[choice - 1].id.clone())
    }
}

/// Refuses an AVD name that is blank.
pub fn check_avd_name(name: &str) -> (r: Result<(), AvdError>)
    ensures
        trim(name@).len() == 0 ==> (r matches Err(AvdError::EmptyName)),
        trim(name@).len() > 0 ==> r is Ok,
{
    let nc = chars_of(name);
    let t = trim_chars(nc.as_slice());
    if t.len() == 0 {
        Err(AvdError::EmptyName)
    } else {
        Ok(())
    }
}

/// The emulator arguments for `avd start <name> [extra...]`.
pub fn emulator_args(args: &[String]) -> (r: Result<Vec<String>, AvdError>)
    ensures
        args@.len() == 0 ==> (r matches Err(AvdError::StartNeedsName)),
        args@.len() > 0 ==> (r matches Ok(v) && arg_views(v@) == seq!["-avd"@, args@[0]@]
            + arg_views(args@).skip(1)),
{
    if args.len() == 0 {
        return Err(AvdError::StartNeedsName);
    }
    let mut v: Vec<String> = Vec::new();
    v.push(String::from_str("-avd"));
    v.push(args[0].clone());
    let mut rest = args_from(args, 1);
    let ghost head = arg_views(v@);
    let ghost tail = arg_views(rest@);
    v.append(&mut rest);
    assert(arg_views(v@) =~= head + tail);
    assert(head =~= seq!["-avd"@, args@[0]@]);
    Ok(v)
}

/// The avdmanager arguments for `avd delete <name>`.
pub fn delete_avd_args(args: &[String]) -> (r: Result<Vec<String>, AvdError>)
    ensures
        args@.len() == 0 ==> (r matches Err(AvdError::DeleteNeedsName)),
        args@.len() > 0 ==> (r matches Ok(v) && arg_views(v@) == seq![
            "delete"@,
            "avd"@,
            "-n"@,
            args@[0]@,
        ]),
{
    if args.len() == 0 {
        return Err(AvdError::DeleteNeedsName);
    }
    let mut v: Vec<String> = Vec::new();
    v.push(String::from_str("delete"));
    v.push(String::from_str("avd"));
    v.push(String::from_str("-n"));
    v.push(args[0].clone());
    assert(arg_views(v@) =~= seq!["delete"@, "avd"@, "-n"@, args@[0]@]);
    Ok(v)
}

/// The avdmanager arguments that create AVD `name` from `package`, with
/// the device profile when one was picked.
pub fn create_avd_args(name: &str, package: &str, device: Option<&str>) -> (v: Vec<String>)
    ensures
        device is None ==> arg_views(v@) == seq!["create"@, "avd"@, "-n"@, name@, "-k"@, package@],
        device matches Some(d) ==> arg_views(v@) == seq![
            "create"@,
            "avd"@,
            "-n"@,
            name@,
            "-k"@,
            package@,
            "-d"@,
            d@,
        ],
{
    let mut v: Vec<String> = Vec::new();
    v.push(String::from_str("create"));
    v.push(String::from_str("avd"));
    v.push(String::from_str("-n"));
    v.push(String::from_str(name));
    v.push(String::from_str("-k"));
    v.push(String::from_str(package));
    let ghost base = arg_views(v@);
    assert(base =~= seq!["create"@, "avd"@, "-n"@, name@, "-k"@, package@]);
    match device {
        Some(d) => {
            v.push(String::from_str("-d"));
            v.push(String::from_str(d));
            assert(arg_views(v@) =~= base.push("-d"@).push(d@));
        },
        None => {},
    }
    v
}

/// What the `avd create` wizard does next.
#[derive(Debug, PartialEq, Eq)]
pub enum CreateStep {
    /// Ask for the AVD's name.
    AskName,
    /// Pick the API level.
    AskApi,
    /// Resolve the system image for the level and look for its `system.img`.
    ResolveImage,
    /// Install the system image: its `system.img` is missing.
    InstallImage,
    /// Read the device profiles avdmanager offers.
    ListDevices,
    /// Let the user pick a device profile.
    AskDevice,
    /// Create the AVD.
    Create,
}

/// How far the `avd create` wizard has got.
#[derive(Debug)]
pub struct CreateProgress {
    /// The name is known (given or typed).
    pub has_name: bool,
    /// The API level is known (given or picked).
    pub has_api: bool,
    /// `None` until the system image is resolved; then whether it is
    /// installed (its `system.img` present).
    pub image_present: Option<bool>,
    /// The device question is settled (given with `--device`, or picked).
    pub has_device: bool,
    /// `None` until the device profiles are read; then how many there are.
    pub device_count: Option<usize>,
}

/// The wizard's next step: name, API level, the system image (installed
/// only when its `system.img` is missing), then the device (asked only when
/// none was given and avdmanager offers some), then the AVD itself.
pub fn next_create_step(p: &CreateProgress) -> (step: CreateStep)
    ensures
        step == (if !p.has_name {
            CreateStep::AskName
        } else if !p.has_api {
            CreateStep::AskApi
        } else if p.image_present is None {
            CreateStep::ResolveImage
        } else if p.image_present == Some(false) {
            CreateStep::InstallImage
        } else if p.has_device {
            CreateStep::Create
        } else if p.device_count is None {
            CreateStep::ListDevices
        } else if p.device_count == Some(0usize) {
            CreateStep::Create
        } else {
            CreateStep::AskDevice
        }),
{
    if !p.has_name {
        CreateStep::AskName
    } else if !p.has_api {
        CreateStep::AskApi
    } else {
        match p.image_present {
            None => CreateStep::ResolveImage,
            Some(false) => CreateStep::InstallImage,
            Some(true) => {
                if p.has_device {
                    CreateStep::Create
                } else {
                    match p.device_count {
                        None => CreateStep::ListDevices,
                        Some(0) => CreateStep::Create,
                        Some(_) => CreateStep::AskDevice,
                    }
                }
            },
        }
    }
}

/// Repairing is done in one go: in the file the repair writes, read back
/// line by line, every `target=android-` line is the correct one, so a
/// second repair finds nothing to change. (A major holding a line break, or
/// ending in a carriage return, would not read back as written.)
pub proof fn law_repair_leaves_no_stale_target(contents: Seq<char>, system_image: Seq<char>)
    requires
        !first_part(system_image).contains('\n'),
        !(first_part(system_image).len() > 0 && first_part(system_image).last() == '\r'),
    ensures
        ({
            let correct = target_line(system_image);
            let written = terminated(repaired_lines(lines(contents), correct));
            !has_stale_target(lines(written), correct)
        }),
{
    let correct = target_line(system_image);
    let major = first_part(system_image);
    let ls = lines(contents);
    let rl = repaired_lines(ls, correct);
    reveal_strlit("target=android-");
    assert(!correct.contains('\n')) by {
        if correct.contains('\n') {
            let k = choose|k: int| 0 <= k < correct.len() && correct[k] == '\n';
            if k >= target_prefix().len() {
                assert(major[k - target_prefix().len()] == '\n');
            }
        }
    }
    assert(strip_cr(correct) == correct) by {
        if correct.len() > 0 && correct.last() == '\r' {
            if major.len() > 0 {
                assert(correct.last() == major.last());
            } else {
                assert(correct =~= target_prefix());
            }
        }
    }
    lemma_lines_have_no_break(contents);
    assert forall|i: int| 0 <= i < rl.len() implies !(#[trigger] rl[i]).contains('\n') by {
        assert(!ls[i].contains('\n'));
    }
    lemma_lines_of_terminated(rl);
    let back = lines(terminated(rl));
    assert forall|i: int| 0 <= i < back.len() implies !is_stale_target(#[trigger] back[i], correct) by {
        let l = ls[i];
        assert(back[i] == strip_cr(rl[i]));
        if !is_stale_target(l, correct) && l != correct {
            assert(!starts_with(l, target_prefix()));
            if starts_with(strip_cr(l), target_prefix()) {
                assert(strip_cr(l).take(target_prefix().len() as int) =~= l.take(
                    target_prefix().len() as int,
                ));
            }
        }
    }
}

proof fn lemma_device_profiles_concat(x: Seq<Seq<char>>, y: Seq<Seq<char>>)
    ensures
        device_profiles(x + y) == device_profiles(x) + device_profiles(y),
    decreases y.len(),
{
    if y.len() == 0 {
        assert(x + y =~= x);
        assert(device_profiles(x) + device_profiles(y) =~= device_profiles(x));
    } else {
        lemma_device_profiles_concat(x, y.drop_last());
        assert((x + y).drop_last() =~= x + y.drop_last());
        assert((x + y).last() == y.last());
        match device_block(lines(y.last())) {
            (Some(id), Some(name)) => {
                assert(device_profiles(x) + device_profiles(y) =~= (device_profiles(x)
                    + device_profiles(y.drop_last())).push((id, device_label(name, id))));
            },
            _ => {
                assert(device_profiles(y) == device_profiles(y.drop_last()));
            },
        }
    }
}

/// Device listings join at the separator: the devices of `a`, then the
/// separator `---------`, then `b`, are those of `a` followed by those of
/// `b`, when `a` does not end in `-` (else the separator would be found
/// starting inside `a`).
pub proof fn law_device_lists_concatenate(a: Seq<char>, b: Seq<char>)
    requires
        !(a.len() > 0 && a.last() == '-'),
    ensures
        device_profiles(split_str_from(a + "---------"@ + b, "---------"@, 0)) == device_profiles(
            split_str_from(a, "---------"@, 0),
        ) + device_profiles(split_str_from(b, "---------"@, 0)),
{
    let sep = "---------"@;
    reveal_strlit("---------");
    lemma_split_str_before(a, sep, b, '-', 0);
    lemma_split_str_shift(a + sep, b, sep, 0);
    assert((a + sep).len() + 0 == (a.len() + sep.len()) as int);
    lemma_device_profiles_concat(split_str_from(a, sep, 0), split_str_from(b, sep, 0));
}

/// The `id:` line of a device block: `id: <n> or "<id>"`.
pub open spec fn id_line(n: Seq<char>, id: Seq<char>) -> Seq<char> {
    "id: "@ + n + " or "@ + seq!['"'] + id + seq!['"']
}

/// The `Name:` line of a device block.
pub open spec fn name_line(name: Seq<char>) -> Seq<char> {
    "Name: "@ + name
}

/// A device's id is the whole text between the quotes of its `id:` line: a
/// block `id: <n> or "<id>"` / `Name: <name>` gives exactly the device
/// `(id, "<name> (<id>)")`, whatever characters other than quotes and line
/// breaks the id holds (spaces included).
pub proof fn law_device_block_gives_whole_id(n: Seq<char>, id: Seq<char>, name: Seq<char>)
    requires
        !n.contains('"'),
        !n.contains('\n'),
        !id.contains('"'),
        !id.contains('\n'),
        !name.contains('\n'),
        name.len() > 0,
        !is_whitespace(name[0]),
        !is_whitespace(name.last()),
        forall|j: int| !occurs_at(
            id_line(n, id) + seq!['\n'] + name_line(name) + seq!['\n'],
            "---------"@,
            j,
        ),
    ensures
        device_profiles(
            split_str_from(
                id_line(n, id) + seq!['\n'] + name_line(name) + seq!['\n'],
                "---------"@,
                0,
            ),
        ) == seq![(id, device_label(name, id))],
{
    let sep = "---------"@;
    let l1 = id_line(n, id);
    let l2 = name_line(name);
    let nl = seq!['\n'];
    let q = seq!['"'];
    let block = l1 + nl + l2 + nl;
    reveal_strlit("---------");
    reveal_strlit("id: ");
    reveal_strlit(" or ");
    reveal_strlit("Name: ");
    reveal_strlit("id:");
    reveal_strlit("Name:");
    // the text is one block
    lemma_find_from(block, sep, 0);
    assert(find_from(block, sep, 0) is None);
    assert(sep.len() > 0);
    assert(block.subrange(0, block.len() as int) =~= block);
    assert(split_str_from(block, sep, 0) == seq![block.subrange(0, block.len() as int)]);
    assert(split_str_from(block, sep, 0) =~= seq![block]);
    // its lines
    assert(!l1.contains('\n')) by {
        if l1.contains('\n') {
            let k = choose|k: int| 0 <= k < l1.len() && l1[k] == '\n';
            if 4 <= k < 4 + n.len() {
                assert(n[k - 4] == '\n');
            } else if 9 + n.len() <= k < 9 + n.len() + id.len() {
                assert(id[k - 9 - n.len()] == '\n');
            }
        }
    }
    assert(!l2.contains('\n')) by {
        if l2.contains('\n') {
            let k = choose|k: int| 0 <= k < l2.len() && l2[k] == '\n';
            if k >= 6 {
                assert(name[k - 6] == '\n');
            }
        }
    }
    let ls = seq![l1, l2];
    assert(terminated(seq![l1]) =~= l1 + nl) by {
        assert(seq![l1].drop_last() =~= Seq::<Seq<char>>::empty());
        assert(terminated(Seq::<Seq<char>>::empty()) == Seq::<char>::empty());
        assert(seq![l1].last() == l1);
        assert(Seq::<char>::empty() + l1 + nl =~= l1 + nl);
    }
    assert(ls.drop_last() =~= seq![l1]);
    assert(terminated(ls) =~= block);
    lemma_lines_of_terminated(ls);
    assert(strip_cr(l1) == l1);
    assert(l2.last() == name.last());
    assert(strip_cr(l2) == l2);
    assert(lines(block) =~= ls);
    // the id line
    assert(trim_start(l1) == l1);
    assert(l1.last() == '"');
    assert(trim_end(l1) == l1);
    assert(l1.take(3) =~= "id:"@);
    let rest = l1.skip(3);
    let st = (5 + n.len()) as int;
    let en = st + 1 + id.len();
    assert(rest =~= " "@ + n + " or "@ + q + id + q) by {
        reveal_strlit(" ");
    }
    assert(rest.subrange(st, st + 1) =~= q);
    assert forall|j: int| 0 <= j < st implies !occurs_at(rest, q, j) by {
        if occurs_at(rest, q, j) {
            assert(rest.subrange(j, j + 1)[0] == rest[j]);
            if 1 <= j < 1 + n.len() {
                assert(rest[j] == n[j - 1]);
                assert(n.contains('"'));
            }
        }
    }
    lemma_find_from_first(rest, q, 0, st);
    assert(rest.subrange(en, en + 1) =~= q);
    assert forall|j: int| st + 1 <= j < en implies !occurs_at(rest, q, j) by {
        if occurs_at(rest, q, j) {
            assert(rest.subrange(j, j + 1)[0] == rest[j]);
            assert(rest[j] == id[j - st - 1]);
            assert(id.contains('"'));
        }
    }
    lemma_find_from_first(rest, q, st + 1, en);
    assert(rest.subrange(st + 1, en) =~= id);
    assert(trim(l1) == l1);
    assert(starts_with(trim(l1), "id:"@));
    assert(seq![l1].drop_last() =~= Seq::<Seq<char>>::empty());
    assert(seq![l1].last() == l1);
    assert(device_block(Seq::<Seq<char>>::empty()) == (None::<Seq<char>>, None::<Seq<char>>));
    assert(find_from(trim(l1).skip(3), q, 0) == Some(st));
    assert(find_from(trim(l1).skip(3), q, st + 1) == Some(en));
    assert(device_block(seq![l1]) == (Some(id), None::<Seq<char>>));
    // the name line
    assert(trim_start(l2) == l2);
    assert(trim_end(l2) == l2);
    assert(l2.take(3) != "id:"@) by {
        assert(l2.take(3)[0] != "id:"@[0]);
    }
    assert(l2.take(5) =~= "Name:"@);
    assert(l2.skip(5) =~= seq![' '] + name);
    lemma_trim_start_indent(seq![' '], name);
    assert(trim_start(name) == name);
    assert(trim_end(name) == name);
    assert(trim(l2.skip(5)) == name);
    assert(trim(l2) == l2);
    assert(!starts_with(trim(l2), "id:"@));
    assert(starts_with(trim(l2), "Name:"@));
    assert(ls.last() == l2);
    assert(device_block(ls) == (Some(id), Some(name)));
    assert(seq![block].drop_last() =~= Seq::<Seq<char>>::empty());
    assert(seq![block].last() == block);
    assert(device_block(lines(block)) == (Some(id), Some(name)));
    assert(device_profiles(Seq::<Seq<char>>::empty()) == Seq::<(Seq<char>, Seq<char>)>::empty());
    assert(device_profiles(seq![block]) == Seq::<(Seq<char>, Seq<char>)>::empty().push(
        (id, device_label(name, id)),
    ));
    assert(device_profiles(seq![block]) =~= seq![(id, device_label(name, id))]);
}

} // verus!
