//! The command line of the editor: which command a list of arguments
//! asks for, and its operands.

use vstd::prelude::*;
use vstd::string::StringExecFns;
use crate::error::AppError;
use crate::package::names_view;
use crate::text::{push_str, same_text};

verus! {

/// The commands of the editor.
#[derive(PartialEq, Eq, Structural, Clone, Copy, Debug)]
pub enum CommandKind {
    Open,
    Create,
    Save,
    SetStyle,
    ListAdd,
    ListDel,
    ListExit,
    Extract,
    ListZip,
    ExtractEntry,
    Upload,
    UploadMany,
    InsertImage,
    InsertFile,
    InsertOle,
    ResizeImage,
    ReplaceImage,
    DeleteFile,
}

/// A command and its operands, in the order of the command line.
pub struct Command {
    pub kind: CommandKind,
    pub args: Vec<String>,
}

/// The command a name stands for.
pub open spec fn kind_of(name: Seq<char>) -> Option<CommandKind> {
    if name == "open"@ {
        Some(CommandKind::Open)
    } else if name == "create"@ {
        Some(CommandKind::Create)
    } else if name == "save"@ {
        Some(CommandKind::Save)
    } else if name == "setstyle"@ {
        Some(CommandKind::SetStyle)
    } else if name == "listadd"@ {
        Some(CommandKind::ListAdd)
    } else if name == "listdel"@ {
        Some(CommandKind::ListDel)
    } else if name == "listexit"@ {
        Some(CommandKind::ListExit)
    } else if name == "extract"@ {
        Some(CommandKind::Extract)
    } else if name == "listzip"@ {
        Some(CommandKind::ListZip)
    } else if name == "extractentry"@ {
        Some(CommandKind::ExtractEntry)
    } else if name == "upload"@ {
        Some(CommandKind::Upload)
    } else if name == "uploadmany"@ {
        Some(CommandKind::UploadMany)
    } else if name == "insertimage"@ {
        Some(CommandKind::InsertImage)
    } else if name == "insertfile"@ {
        Some(CommandKind::InsertFile)
    } else if name == "insertole"@ {
        Some(CommandKind::InsertOle)
    } else if name == "resizeimage"@ {
        Some(CommandKind::ResizeImage)
    } else if name == "replaceimage"@ {
        Some(CommandKind::ReplaceImage)
    } else if name == "deletefile"@ {
        Some(CommandKind::DeleteFile)
    } else {
        None
    }
}

/// The names of the operands a command needs, in order.
pub open spec fn params(k: CommandKind) -> Seq<Seq<char>> {
    match k {
        CommandKind::Open => seq!["docx_file"@],
        CommandKind::Create => seq!["docx_file"@],
        CommandKind::Save => seq!["docx_file"@, "tmp_file"@],
        CommandKind::SetStyle => seq!["docx_file"@, "para_ids"@, "attr"@, "value"@],
        CommandKind::ListAdd => seq!["docx_file"@, "para_id"@],
        CommandKind::ListDel => seq!["docx_file"@, "para_id"@],
        CommandKind::ListExit => seq!["docx_file"@, "para_id"@],
        CommandKind::Extract => seq!["docx_file"@, "para_id"@],
        CommandKind::ListZip => seq!["docx_file"@],
        CommandKind::ExtractEntry => seq!["docx_file"@, "entry_name"@],
        CommandKind::Upload => seq!["docx_file"@, "src_path"@],
        CommandKind::UploadMany => seq!["docx_file"@, "list_file"@],
        CommandKind::InsertImage => seq!["docx_file"@, "para_id"@, "media_entry"@, "width_cm"@],
        CommandKind::InsertFile => seq!["docx_file"@, "para_id"@, "file_name"@],
        CommandKind::InsertOle => seq!["docx_file"@, "para_id"@, "embed_entry"@],
        CommandKind::ResizeImage => seq!["docx_file"@, "para_id"@, "mode"@],
        CommandKind::ReplaceImage => seq!["docx_file"@, "media_entry"@, "src_path"@],
        CommandKind::DeleteFile => seq!["docx_file"@, "entry"@],
    }
}

/// The default of the optional last operand of a command that has one.
pub open spec fn optional_default(k: CommandKind) -> Option<Seq<char>> {
    match k {
        CommandKind::ListAdd => Some("after"@),
        CommandKind::ResizeImage => Some(""@),
        _ => None,
    }
}

/// The command that the arguments `args` (program name first) ask for:
/// its kind by the second argument and its operands, an optional operand
/// taking its default when it is not given; or the error for an unknown
/// command or the first operand that is missing.
pub open spec fn command_of(args: Seq<Seq<char>>) -> Result<(CommandKind, Seq<Seq<char>>), Seq<char>> {
    let name = args[1];
    match kind_of(name) {
        None => Err("Unknown command: "@ + name),
        Some(k) => {
            let ps = params(k);
            if args.len() < 2 + ps.len() {
                Err("Missing argument: "@ + ps[args.len() - 2])
            } else {
                let given = args.subrange(2, 2 + ps.len() as int);
                match optional_default(k) {
                    None => Ok((k, given)),
                    Some(d) => Ok((k, given.push(if args.len() > 2 + ps.len() { args[2 + ps.len() as int] } else { d }))),
                }
            }
        },
    }
}

/// The command a name stands for.
fn kind_of_exec(name: &str) -> (r: Option<CommandKind>)
    ensures
        r == kind_of(name@),
{
    if same_text(name, "open") {
        Some(CommandKind::Open)
    } else if same_text(name, "create") {
        Some(CommandKind::Create)
    } else if same_text(name, "save") {
        Some(CommandKind::Save)
    } else if same_text(name, "setstyle") {
        Some(CommandKind::SetStyle)
    } else if same_text(name, "listadd") {
        Some(CommandKind::ListAdd)
    } else if same_text(name, "listdel") {
        Some(CommandKind::ListDel)
    } else if same_text(name, "listexit") {
        Some(CommandKind::ListExit)
    } else if same_text(name, "extract") {
        Some(CommandKind::Extract)
    } else if same_text(name, "listzip") {
        Some(CommandKind::ListZip)
    } else if same_text(name, "extractentry") {
        Some(CommandKind::ExtractEntry)
    } else if same_text(name, "upload") {
        Some(CommandKind::Upload)
    } else if same_text(name, "uploadmany") {
        Some(CommandKind::UploadMany)
    } else if same_text(name, "insertimage") {
        Some(CommandKind::InsertImage)
    } else if same_text(name, "insertfile") {
        Some(CommandKind::InsertFile)
    } else if same_text(name, "insertole") {
        Some(CommandKind::InsertOle)
    } else if same_text(name, "resizeimage") {
        Some(CommandKind::ResizeImage)
    } else if same_text(name, "replaceimage") {
        Some(CommandKind::ReplaceImage)
    } else if same_text(name, "deletefile") {
        Some(CommandKind::DeleteFile)
    } else {
        None
    }
}

/// The names of the operands of a command.
fn params_exec(k: CommandKind) -> (r: Vec<&'static str>)
    ensures
        r@.map_values(|s: &'static str| s@) == params(k),
{
    let v: Vec<&'static str> = match k {
        CommandKind::Open => vec!["docx_file"],
        CommandKind::Create => vec!["docx_file"],
        CommandKind::Save => vec!["docx_file", "tmp_file"],
        CommandKind::SetStyle => vec!["docx_file", "para_ids", "attr", "value"],
        CommandKind::ListAdd => vec!["docx_file", "para_id"],
        CommandKind::ListDel => vec!["docx_file", "para_id"],
        CommandKind::ListExit => vec!["docx_file", "para_id"],
        CommandKind::Extract => vec!["docx_file", "para_id"],
        CommandKind::ListZip => vec!["docx_file"],
        CommandKind::ExtractEntry => vec!["docx_file", "entry_name"],
        CommandKind::Upload => vec!["docx_file", "src_path"],
        CommandKind::UploadMany => vec!["docx_file", "list_file"],
        CommandKind::InsertImage => vec!["docx_file", "para_id", "media_entry", "width_cm"],
        CommandKind::InsertFile => vec!["docx_file", "para_id", "file_name"],
        CommandKind::InsertOle => vec!["docx_file", "para_id", "embed_entry"],
        CommandKind::ResizeImage => vec!["docx_file", "para_id", "mode"],
        CommandKind::ReplaceImage => vec!["docx_file", "media_entry", "src_path"],
        CommandKind::DeleteFile => vec!["docx_file", "entry"],
    };
    assert(v@.map_values(|s: &'static str| s@) =~= params(k));
    v
}

/// Reads the command line `args` (program name first; see
/// [`command_of`]).
pub fn parse_command(args: &Vec<String>) -> (r: Result<Command, AppError>)
    requires
        args@.len() >= 2,
    ensures
        match command_of(names_view(args@)) {
            Ok((k, ops)) => r is Ok && r->Ok_0.kind == k && names_view(r->Ok_0.args@) == ops,
            Err(m) => r is Err && r->Err_0.0@ == m,
        },
{
    let ghost av = names_view(args@);
    let name = args[1].as_str();
    assert(av[1] == name@);
    let k = match kind_of_exec(name) {
        None => {
            let mut m = String::from_str("Unknown command: ");
            push_str(&mut m, name);
            return Err(AppError(m));
        },
        Some(k) => k,
    };
    let ps = params_exec(k);
    let ghost pv = ps@.map_values(|s: &'static str| s@);
    if args.len() < 2 + ps.len() {
        let missing = ps[args.len() - 2];
        assert(pv[args.len() - 2] == missing@);
        let mut m = String::from_str("Missing argument: ");
        push_str(&mut m, missing);
        return Err(AppError(m));
    }
    let mut ops: Vec<String> = Vec::new();
    let mut i: usize = 0;
    let n = args.len();
    while i < ps.len()
        invariant
            n == args@.len(),
            av == names_view(args@),
            args@.len() >= 2 + ps@.len(),
            i <= ps@.len(),
            names_view(ops@) == av.subrange(2, 2 + i),
        decreases ps@.len() - i,
    {
        let ghost o = names_view(ops@);
        ops.push(args[2 + i].clone());
        assert(names_view(ops@) =~= o.push(av[2 + i]));
        assert(av.subrange(2, 2 + i + 1) =~= av.subrange(2, 2 + i).push(av[2 + i]));
        i += 1;
    }
    let d: Option<&str> = match k {
        CommandKind::ListAdd => Some("after"),
        CommandKind::ResizeImage => Some(""),
        _ => None,
    };
    match d {
        None => {},
        Some(dv) => {
            let ghost o = names_view(ops@);
            if args.len() > 2 + ps.len() {
                ops.push(args[2 + ps.len()].clone());
            } else {
                ops.push(String::from_str(dv));
            }
            assert(names_view(ops@) =~= o.push(names_view(ops@).last()));
        },
    }
    Ok(Command { kind: k, args: ops })
}

} // verus!
