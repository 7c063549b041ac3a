//! Command-line arguments of aconfig: expansion of response files
//! (`@file`), whose lines hold further arguments.

use vstd::prelude::*;
use crate::text::{
    chars_of, seqs_view, string_from_chars, strings_view, trim, trim_chars, whitespace_tokens,
    whitespace_tokens_of,
};

verus! {

/// Why a response file gave no lines.
#[derive(Debug)]
pub enum ReadFailure {
    /// The file could not be opened.
    Open,
    /// A line could not be read.
    Line,
}

/// A reply of a response file reader, as values: the lines of the file, or
/// why there are none.
pub open spec fn reply_view(r: Result<Vec<String>, ReadFailure>) -> Result<
    Seq<Seq<char>>,
    ReadFailure,
> {
    match r {
        Ok(lines) => Ok(strings_view(lines@)),
        Err(e) => Err(e),
    }
}

/// Reads response files; tests stand in for the file system with it.
pub trait ResponseFileReader {
    /// Whether this reader may answer `reply` when asked for the file at
    /// `path`. A reader that says nothing more of its files may give any
    /// answer.
    open spec fn reads(&self, path: Seq<char>, reply: Result<Seq<Seq<char>>, ReadFailure>) -> bool {
        true
    }

    /// The lines of the response file at `path`.
    fn read_lines(&self, path: &str) -> (r: Result<Vec<String>, ReadFailure>)
        ensures
            self.reads(path@, reply_view(r)),
    ;
}

/// Why the command line could not be expanded.
#[derive(Debug)]
pub enum ArgsError {
    /// An argument is `@` alone.
    MissingResponseFile,
    /// The response file could not be opened.
    OpenFailed { path: String },
    /// A line of the response file could not be read.
    ReadFailed { path: String },
}

/// An error of the command line, as values.
pub enum ArgsErrorView {
    MissingResponseFile,
    OpenFailed { path: Seq<char> },
    ReadFailed { path: Seq<char> },
}

impl View for ArgsError {
    type V = ArgsErrorView;

    open spec fn view(&self) -> ArgsErrorView {
        match self {
            ArgsError::MissingResponseFile => ArgsErrorView::MissingResponseFile,
            ArgsError::OpenFailed { path } => ArgsErrorView::OpenFailed { path: path@ },
            ArgsError::ReadFailed { path } => ArgsErrorView::ReadFailed { path: path@ },
        }
    }
}

impl ArgsError {
    /// The message that reports this error.
    pub fn message(&self) -> (r: String)
        ensures
            r@ == match self {
                ArgsError::MissingResponseFile => "missing response file after @"@,
                ArgsError::OpenFailed { path } => "Failed to open response file: "@ + path@,
                ArgsError::ReadFailed { path } =>
                    "Failed to read line from response file reader: "@ + path@,
            },
    {
        match self {
            ArgsError::MissingResponseFile => String::from_str("missing response file after @"),
            ArgsError::OpenFailed { path } => {
                let mut r = String::from_str("Failed to open response file: ");
                r.append(path.as_str());
                r
            },
            ArgsError::ReadFailed { path } => {
                let mut r = String::from_str("Failed to read line from response file reader: ");
                r.append(path.as_str());
                r
            },
        }
    }
}

/// The arguments of the lines of a response file: each line trimmed,
/// blank lines and `#` comments skipped, the rest split at white space.
pub open spec fn response_tokens(lines: Seq<Seq<char>>) -> Seq<Seq<char>>
    decreases lines.len(),
{
    if lines.len() == 0 {
        Seq::empty()
    } else {
        let r = response_tokens(lines.drop_last());
        let t = trim(lines.last());
        if t.len() == 0 || t[0] == '#' {
            r
        } else {
            r + whitespace_tokens(t)
        }
    }
}

/// The arguments held by the lines of a response file.
pub fn response_file_arguments(lines: &Vec<String>) -> (r: Vec<String>)
    ensures
        strings_view(r@) == response_tokens(strings_view(lines@)),
{
    let ghost ls = strings_view(lines@);
    let mut r: Vec<String> = Vec::new();
    let mut i: usize = 0;
    assert(ls.take(0) == Seq::<Seq<char>>::empty());
    while i < lines.len()
        invariant
            i <= lines.len(),
            ls == strings_view(lines@),
            strings_view(r@) == response_tokens(ls.take(i as int)),
        decreases lines.len() - i,
    {
        assert(ls.take(i + 1).drop_last() == ls.take(i as int));
        assert(ls[i as int] == lines@[i as int]@);
        let chars = chars_of(lines[i].as_str());
        let t = trim_chars(&chars, 0, chars.len());
        assert(chars@.subrange(0, chars@.len() as int) == chars@);
        if t.len() > 0 && t[0] != '#' {
            let tokens = whitespace_tokens_of(&t);
            let ghost r0 = strings_view(r@);
            let mut j: usize = 0;
            while j < tokens.len()
                invariant
                    j <= tokens.len(),
                    strings_view(r@) == r0 + seqs_view(tokens@).take(j as int),
                decreases tokens.len() - j,
            {
                let ghost r1 = strings_view(r@);
                r.push(string_from_chars(tokens[j].as_slice()));
                assert(strings_view(r@) == r1.push(tokens@[j as int]@));
                assert(seqs_view(tokens@).take(j + 1) == seqs_view(tokens@).take(j as int).push(
                    tokens@[j as int]@,
                ));
                j = j + 1;
            }
            assert(seqs_view(tokens@).take(j as int) == seqs_view(tokens@));
        }
        i = i + 1;
    }
    assert(ls.take(i as int) == ls);
    r
}

/// An argument that names a response file: one that starts with `@`.
pub open spec fn names_response_file(arg: Seq<char>) -> bool {
    arg.len() > 0 && arg[0] == '@'
}

/// The paths of the response files that `args` name, in order: each such
/// argument without its `@`.
pub open spec fn response_paths(args: Seq<Seq<char>>) -> Seq<Seq<char>>
    decreases args.len(),
{
    if args.len() == 0 {
        Seq::empty()
    } else if names_response_file(args[0]) {
        seq![args[0].drop_first()] + response_paths(args.drop_first())
    } else {
        response_paths(args.drop_first())
    }
}

/// The expansion of the arguments `args`, given `replies`, the reader's
/// replies for the response files, in order. Arguments are taken from the
/// first: an `@` alone is refused; a response file whose reply is a failure
/// ends the expansion with an error that names it; otherwise each response
/// file argument gives way to the arguments of its lines. `None` when
/// `replies` does not hold exactly one reply for each response file read.
pub open spec fn expand_with(
    args: Seq<Seq<char>>,
    replies: Seq<Result<Seq<Seq<char>>, ReadFailure>>,
) -> Option<Result<Seq<Seq<char>>, ArgsErrorView>>
    decreases args.len(),
{
    if args.len() == 0 {
        if replies.len() == 0 {
            Some(Ok(Seq::empty()))
        } else {
            None
        }
    } else if args[0] == seq!['@'] {
        if replies.len() == 0 {
            Some(Err(ArgsErrorView::MissingResponseFile))
        } else {
            None
        }
    } else if names_response_file(args[0]) {
        if replies.len() == 0 {
            None
        } else {
            match replies[0] {
                Err(ReadFailure::Open) => if replies.len() == 1 {
                    Some(Err(ArgsErrorView::OpenFailed { path: args[0].drop_first() }))
                } else {
                    None
                },
                Err(ReadFailure::Line) => if replies.len() == 1 {
                    Some(Err(ArgsErrorView::ReadFailed { path: args[0].drop_first() }))
                } else {
                    None
                },
                Ok(lines) => match expand_with(args.drop_first(), replies.drop_first()) {
                    Some(Ok(rest)) => Some(Ok(response_tokens(lines) + rest)),
                    other => other,
                },
            }
        }
    } else {
        match expand_with(args.drop_first(), replies) {
            Some(Ok(rest)) => Some(Ok(seq![args[0]] + rest)),
            other => other,
        }
    }
}

/// The expanded command line: the first argument (the program) as it is,
/// the others expanded with `replies`.
pub open spec fn command_line(
    args: Seq<Seq<char>>,
    replies: Seq<Result<Seq<Seq<char>>, ReadFailure>>,
) -> Option<Result<Seq<Seq<char>>, ArgsErrorView>> {
    if args.len() == 0 {
        if replies.len() == 0 {
            Some(Ok(Seq::empty()))
        } else {
            None
        }
    } else {
        match expand_with(args.drop_first(), replies) {
            Some(Ok(rest)) => Some(Ok(seq![args[0]] + rest)),
            other => other,
        }
    }
}

/// The replies of a reader, as values.
pub open spec fn replies_view(v: Seq<Result<Vec<String>, ReadFailure>>) -> Seq<
    Result<Seq<Seq<char>>, ReadFailure>,
> {
    v.map_values(|r: Result<Vec<String>, ReadFailure>| reply_view(r))
}

/// A result of the command line, as values.
pub open spec fn args_result_view(r: Result<Vec<String>, ArgsError>) -> Result<
    Seq<Seq<char>>,
    ArgsErrorView,
> {
    match r {
        Ok(v) => Ok(strings_view(v@)),
        Err(e) => Err(e@),
    }
}

pub open spec fn option_args_result_view(r: Option<Result<Vec<String>, ArgsError>>) -> Option<
    Result<Seq<Seq<char>>, ArgsErrorView>,
> {
    match r {
        Some(x) => Some(args_result_view(x)),
        None => None,
    }
}

/// Without response files, nothing is read and the arguments stay as they
/// are.
proof fn lemma_expand_without_files(
    args: Seq<Seq<char>>,
    replies: Seq<Result<Seq<Seq<char>>, ReadFailure>>,
)
    requires
        forall|k: int| 0 <= k < args.len() ==> !names_response_file(#[trigger] args[k]),
    ensures
        expand_with(args, replies) == if replies.len() == 0 {
            Some(Ok::<Seq<Seq<char>>, ArgsErrorView>(args))
        } else {
            None
        },
    decreases args.len(),
{
    if args.len() > 0 {
        assert(!names_response_file(args[0]));
        assert(args[0] != seq!['@']);
        lemma_expand_without_files(args.drop_first(), replies);
        assert(seq![args[0]] + args.drop_first() =~= args);
    } else {
        assert(args =~= Seq::<Seq<char>>::empty());
    }
}

/// The expansion of `args` from the argument at `i`, with the replies from
/// the one at `j`.
fn expand_from(
    args: &Vec<String>,
    i: usize,
    replies: &Vec<Result<Vec<String>, ReadFailure>>,
    j: usize,
) -> (r: Option<Result<Vec<String>, ArgsError>>)
    requires
        i <= args.len(),
        j <= replies.len(),
    ensures
        option_args_result_view(r) == expand_with(
            strings_view(args@).skip(i as int),
            replies_view(replies@).skip(j as int),
        ),
    decreases args.len() - i,
{
    let ghost a = strings_view(args@).skip(i as int);
    let ghost rs = replies_view(replies@).skip(j as int);
    if i == args.len() {
        assert(a.len() == 0);
        if j == replies.len() {
            let v: Vec<String> = Vec::new();
            assert(strings_view(v@) =~= Seq::<Seq<char>>::empty());
            return Some(Ok(v));
        } else {
            return None;
        }
    }
    assert(a[0] == args@[i as int]@);
    assert(a.drop_first() =~= strings_view(args@).skip(i + 1));
    let chars = chars_of(args[i].as_str());
    if chars.len() == 1 && chars[0] == '@' {
        assert(a[0] =~= seq!['@']);
        if j == replies.len() {
            return Some(Err(ArgsError::MissingResponseFile));
        } else {
            return None;
        }
    }
    if chars.len() > 0 && chars[0] == '@' {
        assert(a[0] != seq!['@']) by {
            if a[0] == seq!['@'] {
                assert(a[0].len() == 1);
            }
        }
        if j == replies.len() {
            return None;
        }
        assert(rs[0] == reply_view(replies@[j as int]));
        assert(rs.drop_first() =~= replies_view(replies@).skip(j + 1));
        let path = string_from_chars(&chars.as_slice()[1..chars.len()]);
        assert(chars@.subrange(1, chars.len() as int) == a[0].drop_first());
        match &replies[j] {
            Err(ReadFailure::Open) => {
                if j + 1 == replies.len() {
                    Some(Err(ArgsError::OpenFailed { path }))
                } else {
                    None
                }
            },
            Err(ReadFailure::Line) => {
                if j + 1 == replies.len() {
                    Some(Err(ArgsError::ReadFailed { path }))
                } else {
                    None
                }
            },
            Ok(lines) => {
                match expand_from(args, i + 1, replies, j + 1) {
                    Some(Ok(mut rest)) => {
                        let mut v = response_file_arguments(lines);
                        let ghost v0 = v@;
                        let ghost r0 = rest@;
                        v.append(&mut rest);
                        assert(strings_view(v@) =~= strings_view(v0) + strings_view(r0));
                        Some(Ok(v))
                    },
                    other => other,
                }
            },
        }
    } else {
        assert(!names_response_file(a[0]));
        assert(a[0] != seq!['@']) by {
            if a[0] == seq!['@'] {
                assert(a[0].len() == 1);
            }
        }
        match expand_from(args, i + 1, replies, j) {
            Some(Ok(mut rest)) => {
                let mut v: Vec<String> = Vec::new();
                v.push(args[i].clone());
                let ghost v0 = v@;
                let ghost r0 = rest@;
                v.append(&mut rest);
                assert(strings_view(v@) =~= seq![a[0]] + strings_view(r0)) by {
                    assert(v@ == v0 + r0);
                    assert(strings_view(v0) =~= seq![a[0]]);
                }
                Some(Ok(v))
            },
            other => other,
        }
    }
}

/// The command line `raw_args` expanded with `replies`, the replies of a
/// reader for its response files, in order; `None` when `replies` does not
/// hold exactly one reply for each response file that the expansion reads.
pub fn expand_with_replies(
    raw_args: &Vec<String>,
    replies: &Vec<Result<Vec<String>, ReadFailure>>,
) -> (r: Option<Result<Vec<String>, ArgsError>>)
    ensures
        option_args_result_view(r) == command_line(strings_view(raw_args@), replies_view(replies@)),
{
    if raw_args.len() == 0 {
        if replies.len() == 0 {
            let v: Vec<String> = Vec::new();
            assert(strings_view(v@) =~= Seq::<Seq<char>>::empty());
            return Some(Ok(v));
        } else {
            return None;
        }
    }
    assert(strings_view(raw_args@).skip(1) =~= strings_view(raw_args@).drop_first());
    assert(replies_view(replies@).skip(0) =~= replies_view(replies@));
    match expand_from(raw_args, 1, replies, 0) {
        Some(Ok(mut rest)) => {
            let mut v: Vec<String> = Vec::new();
            v.push(raw_args[0].clone());
            let ghost v0 = v@;
            let ghost r0 = rest@;
            v.append(&mut rest);
            assert(strings_view(v@) =~= seq![raw_args@[0]@] + strings_view(r0)) by {
                assert(v@ == v0 + r0);
                assert(strings_view(v0) =~= seq![raw_args@[0]@]);
            }
            Some(Ok(v))
        },
        other => other,
    }
}

/// Asks `reader` for the response files of `args` from the argument at
/// `i`, in order, up to the first failure or `@` alone.
fn read_replies<R: ResponseFileReader>(args: &Vec<String>, i: usize, reader: &R) -> (r: Vec<
    Result<Vec<String>, ReadFailure>,
>)
    requires
        i <= args.len(),
    ensures
        expand_with(strings_view(args@).skip(i as int), replies_view(r@)) is Some,
        r.len() <= response_paths(strings_view(args@).skip(i as int)).len(),
        forall|k: int|
            0 <= k < r.len() ==> reader.reads(
                response_paths(strings_view(args@).skip(i as int))[k],
                #[trigger] replies_view(r@)[k],
            ),
    decreases args.len() - i,
{
    let ghost a = strings_view(args@).skip(i as int);
    let mut r: Vec<Result<Vec<String>, ReadFailure>> = Vec::new();
    if i == args.len() {
        assert(a.len() == 0);
        assert(replies_view(r@) =~= Seq::<Result<Seq<Seq<char>>, ReadFailure>>::empty());
        return r;
    }
    assert(a[0] == args@[i as int]@);
    assert(a.drop_first() =~= strings_view(args@).skip(i + 1));
    let chars = chars_of(args[i].as_str());
    if chars.len() == 1 && chars[0] == '@' {
        assert(a[0] =~= seq!['@']);
        assert(replies_view(r@) =~= Seq::<Result<Seq<Seq<char>>, ReadFailure>>::empty());
        return r;
    }
    if chars.len() > 0 && chars[0] == '@' {
        assert(a[0] != seq!['@']) by {
            if a[0] == seq!['@'] {
                assert(a[0].len() == 1);
            }
        }
        let path = string_from_chars(&chars.as_slice()[1..chars.len()]);
        assert(chars@.subrange(1, chars.len() as int) == a[0].drop_first());
        let reply = reader.read_lines(path.as_str());
        let ghost rv = reply_view(reply);
        assert(response_paths(a)[0] == a[0].drop_first());
        match reply {
            Err(e) => {
                r.push(Err(e));
                assert(replies_view(r@) =~= seq![rv]);
            },
            Ok(lines) => {
                let ghost pa = response_paths(a);
                assert(pa.drop_first() =~= response_paths(a.drop_first()));
                r = read_replies(args, i + 1, reader);
                let ghost r0 = replies_view(r@);
                r.insert(0, Ok(lines));
                assert(replies_view(r@) =~= seq![rv] + r0);
                assert(replies_view(r@).drop_first() =~= r0);
                assert forall|k: int| 0 <= k < r.len() implies reader.reads(
                    pa[k],
                    #[trigger] replies_view(r@)[k],
                ) by {
                    if k > 0 {
                        assert(pa[k] == pa.drop_first()[k - 1]);
                        assert(replies_view(r@)[k] == r0[k - 1]);
                    }
                }
            },
        }
    } else {
        assert(!names_response_file(a[0]));
        assert(a[0] != seq!['@']) by {
            if a[0] == seq!['@'] {
                assert(a[0].len() == 1);
            }
        }
        r = read_replies(args, i + 1, reader);
    }
    r
}

/// Expands the response files (`@file`) of a command line, after the
/// first argument (the program), through `reader`: the reader is asked for
/// the files in order, each by its path (the argument without its `@`),
/// and the result is the command line expanded with its replies. A command
/// line without response files comes back unchanged.
pub fn process_raw_args<R: ResponseFileReader>(raw_args: Vec<String>, reader: &R) -> (r: Result<
    Vec<String>,
    ArgsError,
>)
    ensures
        exists|replies: Seq<Result<Seq<Seq<char>>, ReadFailure>>|
            {
                &&& replies.len() <= response_paths(strings_view(raw_args@).drop_first()).len()
                &&& forall|k: int|
                    0 <= k < replies.len() ==> reader.reads(
                        response_paths(strings_view(raw_args@).drop_first())[k],
                        #[trigger] replies[k],
                    )
                &&& #[trigger] command_line(strings_view(raw_args@), replies) == Some(
                    args_result_view(r),
                )
            },
        (forall|i: int| 1 <= i < raw_args.len() ==> !names_response_file(#[trigger] raw_args@[i]@))
            ==> r is Ok && strings_view(r->Ok_0@) == strings_view(raw_args@),
{
    let ghost args = strings_view(raw_args@);
    if raw_args.len() == 0 {
        let v: Vec<String> = Vec::new();
        assert(strings_view(v@) =~= Seq::<Seq<char>>::empty());
        let r: Result<Vec<String>, ArgsError> = Ok(v);
        assert(command_line(args, Seq::empty()) == Some(args_result_view(r)));
        return r;
    }
    let replies = read_replies(&raw_args, 1, reader);
    assert(args.skip(1) =~= args.drop_first());
    let ghost rv = replies_view(replies@);
    let e = expand_with_replies(&raw_args, &replies);
    let r = e.unwrap();
    assert(command_line(args, rv) == Some(args_result_view(r)));
    proof {
        if forall|i: int| 1 <= i < raw_args.len() ==> !names_response_file(#[trigger] raw_args@[i]@) {
            let rest = args.drop_first();
            assert forall|k: int| 0 <= k < rest.len() implies !names_response_file(
                #[trigger] rest[k],
            ) by {
                assert(rest[k] == raw_args@[k + 1]@);
            }
            lemma_expand_without_files(rest, rv);
            assert(seq![args[0]] + rest =~= args);
        }
    }
    r
}

} // verus!
