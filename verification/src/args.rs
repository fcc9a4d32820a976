//! The command line: where the project lies, which encoding its script has, and which options are
//! switched on. The first argument is the name of the program and is never looked at.

use vstd::prelude::*;

verus! {

/// The texts of the arguments.
pub open spec fn arg_texts(args: Seq<String>) -> Seq<Seq<char>> {
    args.map_values(|arg: String| arg@)
}

/// What is behind `prefix` in `text`, where `text` starts with it.
pub open spec fn after_prefix(text: Seq<char>, prefix: Seq<char>) -> Option<Seq<char>> {
    if prefix.is_prefix_of(text) {
        Some(text.skip(prefix.len() as int))
    } else {
        None
    }
}

/// The project directory that argument number `i` gives: behind the `=`, or in the argument that
/// follows. An empty one is none.
pub open spec fn project_dir_at(args: Seq<Seq<char>>, i: int) -> Option<Seq<char>> {
    match after_prefix(args[i], "--project-dir="@) {
        Some(dir) => if dir.len() > 0 {
            Some(dir)
        } else {
            None
        },
        None => if args[i] == "--project-dir"@ && i + 1 < args.len() && args[i + 1].len() > 0 {
            Some(args[i + 1])
        } else {
            None
        },
    }
}

/// The first project directory that an argument from number `i` on gives.
pub open spec fn project_dir_from(args: Seq<Seq<char>>, i: int) -> Option<Seq<char>>
    decreases args.len() - i,
{
    if i >= args.len() {
        None
    } else if project_dir_at(args, i) is Some {
        project_dir_at(args, i)
    } else {
        project_dir_from(args, i + 1)
    }
}

/// The project directory that the command line gives.
pub open spec fn project_dir(args: Seq<Seq<char>>) -> Option<Seq<char>> {
    project_dir_from(args, 1)
}

/// What a command line says of the encoding.
pub enum NlsChoice {
    /// Nothing.
    Default,
    /// The encoding of this name.
    Named(Seq<char>),
    /// That there is one, but not which.
    MissingValue,
}

/// What argument number `i` says of the encoding, where it says something: the name behind the
/// `=`, or in the argument that follows.
pub open spec fn nls_choice_at(args: Seq<Seq<char>>, i: int) -> Option<NlsChoice> {
    match after_prefix(args[i], "--nls="@) {
        Some(name) => Some(NlsChoice::Named(name)),
        None => if args[i] != "--nls"@ {
            None
        } else if i + 1 < args.len() {
            Some(NlsChoice::Named(args[i + 1]))
        } else {
            Some(NlsChoice::MissingValue)
        },
    }
}

/// What the first argument from number `i` on that speaks of the encoding says.
pub open spec fn nls_choice_from(args: Seq<Seq<char>>, i: int) -> NlsChoice
    decreases args.len() - i,
{
    if i >= args.len() {
        NlsChoice::Default
    } else {
        match nls_choice_at(args, i) {
            Some(choice) => choice,
            None => nls_choice_from(args, i + 1),
        }
    }
}

/// What the command line says of the encoding.
pub open spec fn nls_choice(args: Seq<Seq<char>>) -> NlsChoice {
    nls_choice_from(args, 1)
}

/// Whether `flag` is among the arguments.
pub open spec fn has_flag(args: Seq<Seq<char>>, flag: Seq<char>) -> bool {
    exists|i: int| 1 <= i < args.len() && #[trigger] args[i] == flag
}

/// Why the command line settles on no encoding.
#[derive(Debug)]
pub enum NlsArgError<E> {
    /// The name is not that of an encoding.
    Invalid(E),
    /// There is no name.
    MissingValue,
}

/// What the program says of `NlsArgError::MissingValue`.
pub fn missing_nls_message() -> (text: &'static str)
    ensures
        text@ == "--nls requires a value (sjis, gbk, utf8)"@,
{
    "--nls requires a value (sjis, gbk, utf8)"
}

fn same_text(left: &str, right: &str) -> (same: bool)
    ensures
        same == (left@ == right@),
{
    left.to_owned() == right.to_owned()
}

fn strip_prefix<'a>(text: &'a str, prefix: &str) -> (rest: Option<&'a str>)
    ensures
        match rest {
            Some(rest) => after_prefix(text@, prefix@) == Some(rest@),
            None => after_prefix(text@, prefix@) is None,
        },
{
    let len: usize = text.unicode_len();
    let prefix_len: usize = prefix.unicode_len();
    if prefix_len <= len && same_text(text.substring_char(0, prefix_len), prefix) {
        let rest = text.substring_char(prefix_len, len);
        assert(prefix@.is_prefix_of(text@));
        assert(rest@ =~= text@.skip(prefix@.len() as int));
        Some(rest)
    } else {
        proof {
            if prefix@.is_prefix_of(text@) {
                assert(text@.subrange(0, prefix@.len() as int) =~= prefix@);
            }
        }
        None
    }
}

/// The project directory of `--project-dir <path>` or `--project-dir=<path>`.
pub fn parse_project_dir_arg(args: &[String]) -> (dir: Option<String>)
    ensures
        match dir {
            Some(found) => project_dir(arg_texts(args@)) == Some(found@),
            None => project_dir(arg_texts(args@)) is None,
        },
{
    let ghost texts = arg_texts(args@);
    let mut i: usize = 1;
    while i < args.len()
        invariant
            1 <= i,
            texts == arg_texts(args@),
            project_dir(texts) == project_dir_from(texts, i as int),
        decreases args.len() - i,
    {
        let arg = args[i].as_str();
        assert(arg@ == texts[i as int]);
        match strip_prefix(arg, "--project-dir=") {
            Some(dir) => {
                if !dir.is_empty() {
                    return Some(dir.to_owned());
                }
            },
            None => {
                if same_text(arg, "--project-dir") && i + 1 < args.len() {
                    let dir = args[i + 1].as_str();
                    assert(dir@ == texts[i + 1]);
                    if !dir.is_empty() {
                        return Some(dir.to_owned());
                    }
                }
            },
        }
        i += 1;
    }
    None
}

/// The encoding of `--nls <value>` or `--nls=<value>`, as `parse_name` makes it out from the
/// value, or `default` where there is no such argument.
pub fn parse_nls_arg<N, E, F: Fn(&str) -> Result<N, E>>(
    args: &[String],
    default: N,
    parse_name: F,
) -> (nls: Result<N, NlsArgError<E>>)
    requires
        forall|name: &str| call_requires(parse_name, (name,)),
    ensures
        match nls_choice(arg_texts(args@)) {
            NlsChoice::Default => nls == Ok::<N, NlsArgError<E>>(default),
            NlsChoice::Named(value) => exists|name: &str, parsed: Result<N, E>|
                {
                    &&& name@ == value
                    &&& #[trigger] call_ensures(parse_name, (name,), parsed)
                    &&& nls == (match parsed {
                        Ok(found) => Ok::<N, NlsArgError<E>>(found),
                        Err(error) => Err(NlsArgError::Invalid(error)),
                    })
                },
            NlsChoice::MissingValue => nls == Err::<N, _>(NlsArgError::<E>::MissingValue),
        },
{
    let ghost texts = arg_texts(args@);
    let mut i: usize = 1;
    while i < args.len()
        invariant
            1 <= i,
            texts == arg_texts(args@),
            nls_choice(texts) == nls_choice_from(texts, i as int),
            forall|name: &str| call_requires(parse_name, (name,)),
        decreases args.len() - i,
    {
        let arg = args[i].as_str();
        assert(arg@ == texts[i as int]);
        let value: Option<&str> = match strip_prefix(arg, "--nls=") {
            Some(name) => Some(name),
            None => {
                if same_text(arg, "--nls") {
                    if i + 1 < args.len() {
                        let name = args[i + 1].as_str();
                        assert(name@ == texts[i + 1]);
                        Some(name)
                    } else {
                        return Err(NlsArgError::MissingValue);
                    }
                } else {
                    None
                }
            },
        };
        if let Some(name) = value {
            let parsed = parse_name(name);
            assert(call_ensures(parse_name, (name,), parsed));
            return match parsed {
                Ok(found) => Ok(found),
                Err(error) => Err(NlsArgError::Invalid(error)),
            };
        }
        i += 1;
    }
    Ok(default)
}

/// Whether one of the arguments is `flag`.
fn contains_flag(args: &[String], flag: &str) -> (found: bool)
    ensures
        found == has_flag(arg_texts(args@), flag@),
        found == exists|i: int| 1 <= i < args@.len() && (#[trigger] args@[i])@ == flag@,
{
    let ghost texts = arg_texts(args@);
    let mut i: usize = 1;
    while i < args.len()
        invariant
            1 <= i,
            texts == arg_texts(args@),
            forall|j: int| 1 <= j < i && j < texts.len() ==> #[trigger] texts[j] != flag@,
            forall|j: int|
                1 <= j < i && j < args@.len() ==> (#[trigger] args@[j])@ != flag@,
        decreases args.len() - i,
    {
        if same_text(args[i].as_str(), flag) {
            assert(texts[i as int] == flag@);
            return true;
        }
        i += 1;
    }
    false
}

/// Whether `--system-font` is given, which has the system's CJK fallback fonts scanned.
pub fn parse_system_font_arg(args: &[String]) -> (found: bool)
    ensures
        found == has_flag(arg_texts(args@), "--system-font"@),
        found == exists|i: int|
            1 <= i < args@.len() && (#[trigger] args@[i])@ == "--system-font"@,
{
    contains_flag(args, "--system-font")
}

/// Whether `--sakura-moyu-chs-patch` is given, which enables the Chinese patch.
pub fn parse_sakura_moyu_chs_patch_arg(args: &[String]) -> (found: bool)
    ensures
        found == has_flag(arg_texts(args@), "--sakura-moyu-chs-patch"@),
        found == exists|i: int|
            1 <= i < args@.len() && (#[trigger] args@[i])@ == "--sakura-moyu-chs-patch"@,
{
    contains_flag(args, "--sakura-moyu-chs-patch")
}

/// The files of the Chinese patch.
#[derive(Debug, Clone, Copy, PartialEq, Eq, Structural)]
pub enum PatchFile {
    /// The replaced strings.
    PatchDat,
    /// The replaced resources.
    PatchBin,
}

/// The name of a file of the patch.
pub open spec fn patch_file_name(file: PatchFile) -> Seq<char> {
    match file {
        PatchFile::PatchDat => "patch.dat"@,
        PatchFile::PatchBin => "patch.bin"@,
    }
}

impl PatchFile {
    /// The name of the file.
    pub fn name(&self) -> (name: &'static str)
        ensures
            name@ == patch_file_name(*self),
            *self == PatchFile::PatchDat ==> name@ == "patch.dat"@,
            *self == PatchFile::PatchBin ==> name@ == "patch.bin"@,
    {
        match self {
            PatchFile::PatchDat => "patch.dat",
            PatchFile::PatchBin => "patch.bin",
        }
    }
}

/// A file of the patch that is not where it has to be.
#[derive(Debug)]
pub struct MissingPatchFile {
    pub file: PatchFile,
    pub base_path: String,
}

impl MissingPatchFile {
    /// What is missing, in words.
    pub fn message(&self) -> (text: String)
        ensures
            text@ == "--sakura-moyu-chs-patch requires "@ + patch_file_name(self.file) + " under "@
                + self.base_path@,
            self.file == PatchFile::PatchDat ==> text@
                == "--sakura-moyu-chs-patch requires "@ + "patch.dat"@ + " under "@
                + self.base_path@,
            self.file == PatchFile::PatchBin ==> text@
                == "--sakura-moyu-chs-patch requires "@ + "patch.bin"@ + " under "@
                + self.base_path@,
    {
        let mut text = "--sakura-moyu-chs-patch requires ".to_owned();
        text.append(self.file.name());
        text.append(" under ");
        text.append(self.base_path.as_str());
        text
    }
}

/// The paths of the two files of the patch under `base_path`, where both are files. Where neither
/// is, it is `patch.dat` that is reported.
pub fn require_sakura_moyu_chs_patch_files<P>(
    base_path: &str,
    patch_dat_path: P,
    patch_dat_is_file: bool,
    patch_bin_path: P,
    patch_bin_is_file: bool,
) -> (paths: Result<(P, P), MissingPatchFile>)
    ensures
        match paths {
            Ok((dat, bin)) => {
                &&& patch_dat_is_file && patch_bin_is_file
                &&& dat == patch_dat_path && bin == patch_bin_path
            },
            Err(missing) => {
                &&& missing.base_path@ == base_path@
                &&& if patch_dat_is_file {
                    !patch_bin_is_file && missing.file == PatchFile::PatchBin
                } else {
                    missing.file == PatchFile::PatchDat
                }
            },
        },
{
    if !patch_dat_is_file {
        return Err(
            MissingPatchFile { file: PatchFile::PatchDat, base_path: base_path.to_owned() },
        );
    }
    if !patch_bin_is_file {
        return Err(
            MissingPatchFile { file: PatchFile::PatchBin, base_path: base_path.to_owned() },
        );
    }
    Ok((patch_dat_path, patch_bin_path))
}

} // verus!
