//! What holds of the command line as a whole.

use vstd::prelude::*;

use crate::args::{
    after_prefix, arg_texts, has_flag, nls_choice, nls_choice_at, nls_choice_from, project_dir,
    project_dir_at, project_dir_from, NlsChoice,
};

verus! {

/// The name of the program makes no difference.
pub proof fn law_program_name_is_ignored(left: Seq<Seq<char>>, right: Seq<Seq<char>>)
    requires
        left.len() == right.len(),
        forall|i: int| 1 <= i < left.len() ==> left[i] == right[i],
    ensures
        project_dir(left) == project_dir(right),
        nls_choice(left) == nls_choice(right),
        forall|flag: Seq<char>| #[trigger] has_flag(left, flag) == has_flag(right, flag),
{
    lemma_same_from(left, right, 1);
    assert forall|flag: Seq<char>| #[trigger] has_flag(left, flag) == has_flag(right, flag) by {
        if has_flag(left, flag) {
            let i = choose|i: int| 1 <= i < left.len() && #[trigger] left[i] == flag;
            assert(right[i] == flag);
        }
        if has_flag(right, flag) {
            let i = choose|i: int| 1 <= i < right.len() && #[trigger] right[i] == flag;
            assert(left[i] == flag);
        }
    }
}

proof fn lemma_same_from(left: Seq<Seq<char>>, right: Seq<Seq<char>>, i: int)
    requires
        1 <= i,
        left.len() == right.len(),
        forall|j: int| 1 <= j < left.len() ==> left[j] == right[j],
    ensures
        project_dir_from(left, i) == project_dir_from(right, i),
        nls_choice_from(left, i) == nls_choice_from(right, i),
    decreases left.len() - i,
{
    if i < left.len() {
        lemma_same_from(left, right, i + 1);
    }
}

proof fn lemma_project_dir_skips(args: Seq<Seq<char>>, from: int, to: int)
    requires
        from <= to <= args.len(),
        forall|j: int| from <= j < to ==> #[trigger] project_dir_at(args, j) is None,
    ensures
        project_dir_from(args, from) == project_dir_from(args, to),
    decreases to - from,
{
    if from < to {
        lemma_project_dir_skips(args, from + 1, to);
    }
}

proof fn lemma_nls_choice_skips(args: Seq<Seq<char>>, from: int, to: int)
    requires
        from <= to <= args.len(),
        forall|j: int| from <= j < to ==> #[trigger] nls_choice_at(args, j) is None,
    ensures
        nls_choice_from(args, from) == nls_choice_from(args, to),
    decreases to - from,
{
    if from < to {
        lemma_nls_choice_skips(args, from + 1, to);
    }
}

proof fn lemma_project_dir_found(args: Seq<Seq<char>>, from: int)
    requires
        1 <= from,
    ensures
        project_dir_from(args, from) is Some ==> exists|i: int|
            from <= i < args.len() && #[trigger] project_dir_at(args, i) == project_dir_from(
                args,
                from,
            ),
        project_dir_from(args, from) is None ==> forall|i: int|
            from <= i < args.len() ==> #[trigger] project_dir_at(args, i) is None,
    decreases args.len() - from,
{
    if from < args.len() {
        lemma_project_dir_found(args, from + 1);
    }
}

/// Of several project directories the first one stands, whatever is behind it.
pub proof fn law_first_project_dir_stands(args: Seq<Seq<char>>, i: int)
    requires
        1 <= i < args.len(),
        project_dir_at(args, i) is Some,
        forall|j: int| 1 <= j < i ==> #[trigger] project_dir_at(args, j) is None,
    ensures
        project_dir(args) == project_dir_at(args, i),
{
    lemma_project_dir_skips(args, 1, i);
}

/// There is no project directory exactly where no argument gives one.
pub proof fn law_no_project_dir(args: Seq<Seq<char>>)
    ensures
        project_dir(args) is None <==> forall|i: int|
            1 <= i < args.len() ==> #[trigger] project_dir_at(args, i) is None,
{
    lemma_project_dir_found(args, 1);
}

/// The project directory is never an empty text.
pub proof fn law_project_dir_is_not_empty(args: Seq<Seq<char>>)
    ensures
        project_dir(args) matches Some(dir) ==> dir.len() > 0,
{
    lemma_project_dir_found(args, 1);
}

/// `--project-dir=<path>` and `--project-dir <path>` mean the same.
pub proof fn law_both_spellings_of_project_dir(args: Seq<Seq<char>>, i: int, dir: Seq<char>)
    requires
        1 <= i < args.len(),
        dir.len() > 0,
        forall|j: int| 1 <= j < i ==> #[trigger] project_dir_at(args, j) is None,
        ({
            ||| args[i] == "--project-dir="@ + dir
            ||| args[i] == "--project-dir"@ && i + 1 < args.len() && args[i + 1] == dir
        }),
    ensures
        project_dir(args) == Some(dir),
{
    reveal_strlit("--project-dir=");
    reveal_strlit("--project-dir");
    if args[i] == "--project-dir="@ + dir {
        lemma_after_prefix("--project-dir="@, dir);
    }
    law_first_project_dir_stands(args, i);
}

proof fn lemma_after_prefix(prefix: Seq<char>, rest: Seq<char>)
    ensures
        after_prefix(prefix + rest, prefix) == Some(rest),
{
    assert(prefix.is_prefix_of(prefix + rest));
    assert((prefix + rest).skip(prefix.len() as int) =~= rest);
}

/// `--nls=<value>` and `--nls <value>` mean the same, and of several the first one stands. The
/// value may be empty.
pub proof fn law_both_spellings_of_nls(args: Seq<Seq<char>>, i: int, name: Seq<char>)
    requires
        1 <= i < args.len(),
        forall|j: int| 1 <= j < i ==> #[trigger] nls_choice_at(args, j) is None,
        ({
            ||| args[i] == "--nls="@ + name
            ||| args[i] == "--nls"@ && i + 1 < args.len() && args[i + 1] == name
        }),
    ensures
        nls_choice(args) == NlsChoice::Named(name),
{
    reveal_strlit("--nls=");
    reveal_strlit("--nls");
    if args[i] == "--nls="@ + name {
        lemma_after_prefix("--nls="@, name);
    }
    lemma_nls_choice_skips(args, 1, i);
}

/// `--nls` at the end of the command line lacks its value.
pub proof fn law_nls_without_value_is_refused(args: Seq<Seq<char>>)
    requires
        args.len() > 1,
        args.last() == "--nls"@,
        forall|j: int| 1 <= j < args.len() - 1 ==> #[trigger] nls_choice_at(args, j) is None,
    ensures
        nls_choice(args) == NlsChoice::MissingValue,
{
    reveal_strlit("--nls=");
    reveal_strlit("--nls");
    lemma_nls_choice_skips(args, 1, args.len() - 1);
}

/// The encoding is the default one exactly where no argument speaks of it.
pub proof fn law_nls_default(args: Seq<Seq<char>>)
    ensures
        nls_choice(args) is Default <==> forall|i: int|
            1 <= i < args.len() ==> (#[trigger] args[i]) != "--nls"@ && !"--nls="@.is_prefix_of(
                args[i],
            ),
{
    lemma_nls_default_from(args, 1);
}

proof fn lemma_nls_default_from(args: Seq<Seq<char>>, from: int)
    requires
        1 <= from,
    ensures
        nls_choice_from(args, from) is Default <==> forall|i: int|
            from <= i < args.len() ==> (#[trigger] args[i]) != "--nls"@ && !"--nls="@.is_prefix_of(
                args[i],
            ),
    decreases args.len() - from,
{
    if from < args.len() {
        lemma_nls_default_from(args, from + 1);
        assert(nls_choice_at(args, from) is None <==> args[from] != "--nls"@
            && !"--nls="@.is_prefix_of(args[from]));
    }
}

/// The texts of the arguments are those of all of them, in their order and unchanged.
pub proof fn law_arguments_are_taken_as_they_are(args: Seq<String>)
    ensures
        arg_texts(args).len() == args.len(),
        forall|i: int| 0 <= i < args.len() ==> #[trigger] arg_texts(args)[i] == args[i]@,
{
}

/// A flag is found at any place behind the name of the program, whatever stands around it.
pub proof fn law_flag_is_found_anywhere(args: Seq<Seq<char>>, flag: Seq<char>, i: int)
    requires
        1 <= i < args.len(),
        args[i] == flag,
    ensures
        has_flag(args, flag),
{
}

/// A flag that is none of the arguments is not found.
pub proof fn law_absent_flag_is_not_found(args: Seq<Seq<char>>, flag: Seq<char>)
    requires
        forall|i: int| 1 <= i < args.len() ==> #[trigger] args[i] != flag,
    ensures
        !has_flag(args, flag),
{
}

/// With further arguments behind a command line, a flag is found exactly where it was found before
/// or is one of these.
pub proof fn law_further_arguments_keep_flags(
    args: Seq<Seq<char>>,
    more: Seq<Seq<char>>,
    flag: Seq<char>,
)
    requires
        args.len() >= 1,
    ensures
        has_flag(args + more, flag) <==> has_flag(args, flag) || more.contains(flag),
{
    let all = args + more;
    if has_flag(args, flag) {
        let i = choose|i: int| 1 <= i < args.len() && #[trigger] args[i] == flag;
        assert(all[i] == flag);
    }
    if more.contains(flag) {
        let i = choose|i: int| 0 <= i < more.len() && more[i] == flag;
        assert(all[args.len() + i] == flag);
    }
    if has_flag(all, flag) {
        let i = choose|i: int| 1 <= i < all.len() && #[trigger] all[i] == flag;
        if i < args.len() {
            assert(args[i] == flag);
        } else {
            assert(more[i - args.len()] == flag);
        }
    }
}

/// What an argument that gives no project directory looks like.
proof fn lemma_gives_no_project_dir(args: Seq<Seq<char>>, i: int)
    requires
        0 <= i < args.len(),
    ensures
        project_dir_at(args, i) is None <==> {
            &&& "--project-dir="@.is_prefix_of(args[i]) ==> args[i] == "--project-dir="@
            &&& args[i] == "--project-dir"@ && i + 1 < args.len() ==> args[i + 1].len() == 0
        },
{
    reveal_strlit("--project-dir=");
    reveal_strlit("--project-dir");
    if "--project-dir="@.is_prefix_of(args[i]) && args[i].len() == "--project-dir="@.len() {
        assert(args[i] =~= "--project-dir="@);
    }
}

/// The first argument that gives a directory decides: `--project-dir=` with something behind it, or
/// `--project-dir` with something in the argument that follows. Whatever else stands in front of
/// it or behind makes no difference.
pub proof fn law_first_project_dir_argument_decides(args: Seq<Seq<char>>, i: int, dir: Seq<char>)
    requires
        1 <= i < args.len(),
        dir.len() > 0,
        ({
            ||| args[i] == "--project-dir="@ + dir
            ||| args[i] == "--project-dir"@ && i + 1 < args.len() && args[i + 1] == dir
        }),
        forall|j: int|
            1 <= j < i ==> {
                &&& "--project-dir="@.is_prefix_of(#[trigger] args[j]) ==> args[j]
                    == "--project-dir="@
                &&& args[j] == "--project-dir"@ ==> args[j + 1].len() == 0
            },
    ensures
        project_dir(args) == Some(dir),
{
    assert forall|j: int| 1 <= j < i implies #[trigger] project_dir_at(args, j) is None by {
        assert("--project-dir="@.is_prefix_of(args[j]) ==> args[j] == "--project-dir="@);
        lemma_gives_no_project_dir(args, j);
    }
    law_both_spellings_of_project_dir(args, i, dir);
}

/// A command line of which no argument is `--project-dir=` with something behind it, or
/// `--project-dir` with something in the argument that follows, gives no project directory.
pub proof fn law_other_arguments_give_no_project_dir(args: Seq<Seq<char>>)
    requires
        forall|j: int|
            1 <= j < args.len() ==> {
                &&& "--project-dir="@.is_prefix_of(#[trigger] args[j]) ==> args[j]
                    == "--project-dir="@
                &&& args[j] == "--project-dir"@ && j + 1 < args.len() ==> args[j + 1].len() == 0
            },
    ensures
        project_dir(args) is None,
{
    assert forall|j: int| 1 <= j < args.len() implies #[trigger] project_dir_at(
        args,
        j,
    ) is None by {
        assert("--project-dir="@.is_prefix_of(args[j]) ==> args[j] == "--project-dir="@);
        lemma_gives_no_project_dir(args, j);
    }
    law_no_project_dir(args);
}

/// A project directory stands in the command line, behind the `=` of `--project-dir=` or in the
/// argument that follows `--project-dir`, and no argument in front gives another one. Returned is
/// the number of that argument.
pub proof fn law_project_dir_stands_in_an_argument(args: Seq<Seq<char>>) -> (i: int)
    requires
        project_dir(args) is Some,
    ensures
        ({
            let dir = project_dir(args)->0;
            &&& 1 <= i < args.len()
            &&& dir.len() > 0
            &&& args[i] == "--project-dir="@ + dir || (args[i] == "--project-dir"@ && i + 1
                < args.len() && args[i + 1] == dir)
            &&& forall|j: int|
                1 <= j < i ==> {
                    &&& "--project-dir="@.is_prefix_of(#[trigger] args[j]) ==> args[j]
                        == "--project-dir="@
                    &&& args[j] == "--project-dir"@ ==> args[j + 1].len() == 0
                }
        }),
{
    let i = lemma_first_project_dir(args, 1);
    let dir = project_dir(args)->0;
    reveal_strlit("--project-dir=");
    reveal_strlit("--project-dir");
    if "--project-dir="@.is_prefix_of(args[i]) {
        assert(args[i] =~= "--project-dir="@ + dir);
    }
    assert forall|j: int| 1 <= j < i implies {
        &&& "--project-dir="@.is_prefix_of(#[trigger] args[j]) ==> args[j] == "--project-dir="@
        &&& args[j] == "--project-dir"@ ==> args[j + 1].len() == 0
    } by {
        assert(project_dir_at(args, j) is None);
        lemma_gives_no_project_dir(args, j);
    }
    i
}

proof fn lemma_first_project_dir(args: Seq<Seq<char>>, from: int) -> (i: int)
    requires
        1 <= from,
        project_dir_from(args, from) is Some,
    ensures
        from <= i < args.len(),
        project_dir_at(args, i) == project_dir_from(args, from),
        forall|j: int| from <= j < i ==> #[trigger] project_dir_at(args, j) is None,
    decreases args.len() - from,
{
    if project_dir_at(args, from) is Some {
        from
    } else {
        lemma_first_project_dir(args, from + 1)
    }
}

proof fn lemma_speaks_not_of_nls(args: Seq<Seq<char>>, i: int)
    requires
        0 <= i < args.len(),
    ensures
        nls_choice_at(args, i) is None <==> args[i] != "--nls"@ && !"--nls="@.is_prefix_of(args[i]),
{
}

/// The first argument that is `--nls` or starts with `--nls=` decides on the encoding: its name is
/// what is behind the `=`, or the argument that follows, if there is one. Whatever else stands in
/// front of it or behind makes no difference.
pub proof fn law_first_nls_argument_decides(args: Seq<Seq<char>>, i: int)
    requires
        1 <= i < args.len(),
        forall|j: int|
            1 <= j < i ==> (#[trigger] args[j]) != "--nls"@ && !"--nls="@.is_prefix_of(args[j]),
    ensures
        forall|name: Seq<char>|
            #![trigger "--nls="@ + name]
            args[i] == "--nls="@ + name ==> nls_choice(args) == NlsChoice::Named(name),
        args[i] == "--nls"@ && i + 1 < args.len() ==> nls_choice(args) == NlsChoice::Named(
            args[i + 1],
        ),
        args[i] == "--nls"@ && i + 1 == args.len() ==> nls_choice(args) == NlsChoice::MissingValue,
{
    assert forall|j: int| 1 <= j < i implies #[trigger] nls_choice_at(args, j) is None by {
        assert(args[j] != "--nls"@ && !"--nls="@.is_prefix_of(args[j]));
        lemma_speaks_not_of_nls(args, j);
    }
    assert forall|name: Seq<char>|
        #![trigger "--nls="@ + name]
        args[i] == "--nls="@ + name implies nls_choice(args) == NlsChoice::Named(name) by {
        law_both_spellings_of_nls(args, i, name);
    }
    if args[i] == "--nls"@ && i + 1 < args.len() {
        law_both_spellings_of_nls(args, i, args[i + 1]);
    }
    if args[i] == "--nls"@ && i + 1 == args.len() {
        law_nls_without_value_is_refused(args);
    }
}

} // verus!
