//! Lists of names that are kept in a file: one name to a line, blank lines
//! and lines that start with `#` left out. On the command line such a file
//! is named by a single argument that starts with `@`.
use crate::filter::texts;
use vstd::prelude::*;
use vstd::string::*;

verus! {

/// What `char::is_whitespace` says of `c`.
pub uninterp spec fn is_space(c: char) -> bool;

/// `char::is_whitespace`: its answer is a function of the character alone
/// and is named `is_space`.
#[verifier::external_body]
fn whitespace(c: char) -> (r: bool)
    ensures
        r == is_space(c),
{
    c.is_whitespace()
}

/// What a list of arguments asks for.
#[derive(Debug)]
pub enum ResponseRequest {
    /// The arguments are the names.
    Names(Vec<String>),
    /// The names are to be read from the file of this path.
    File(String),
    /// A file of names was given beside other arguments, which is refused.
    Mixed,
}

/// The argument names a file of names.
pub open spec fn names_a_file(arg: Seq<char>) -> bool {
    arg.len() > 0 && arg[0] == '@'
}

/// One of the arguments names a file of names.
pub open spec fn any_names_a_file(args: Seq<Seq<char>>) -> bool {
    exists|i: int| 0 <= i < args.len() && names_a_file(#[trigger] args[i])
}

/// Index of the first line feed of `text` at or behind `from`, or the
/// length of `text` where there is none.
pub open spec fn line_end(text: Seq<char>, from: int) -> int
    decreases text.len() - from,
{
    if from < 0 || from >= text.len() {
        text.len() as int
    } else if text[from] == '\n' {
        from
    } else {
        line_end(text, from + 1)
    }
}

/// Index of the first character in `from..to` that is no white space, or
/// `to` where all are.
pub open spec fn trimmed_start(text: Seq<char>, from: int, to: int) -> int
    decreases to - from,
{
    if from >= to || !is_space(text[from]) {
        from
    } else {
        trimmed_start(text, from + 1, to)
    }
}

/// Index behind the last character in `from..to` that is no white space,
/// or `from` where all are.
pub open spec fn trimmed_end(text: Seq<char>, from: int, to: int) -> int
    decreases to - from,
{
    if from >= to || !is_space(text[to - 1]) {
        to
    } else {
        trimmed_end(text, from, to - 1)
    }
}

/// The names in `text` from index `from` on: each line without the white
/// space around it, unless nothing is left of it or it starts with `#`.
pub open spec fn listed_names(text: Seq<char>, from: int) -> Seq<Seq<char>>
    decreases text.len() - from,
{
    if from < 0 || from >= text.len() {
        Seq::empty()
    } else {
        let rest = if from <= line_end(text, from) < text.len() {
            listed_names(text, line_end(text, from) + 1)
        } else {
            Seq::empty()
        };
        let end = line_end(text, from);
        let a = trimmed_start(text, from, end);
        let b = trimmed_end(text, a, end);
        if a < b && text[a] != '#' {
            seq![text.subrange(a, b)] + rest
        } else {
            rest
        }
    }
}

/// The characters of `text`.
fn chars_of(text: &str) -> (r: Vec<char>)
    ensures
        r@ == text@,
{
    let mut out: Vec<char> = Vec::new();
    for c in it: text.chars()
        invariant
            it.seq() == text@,
            out@ == it.seq().take(it.index() as int),
    {
        out.push(c);
    }
    proof {
        assert(out@ =~= text@);
    }
    out
}

/// The line feed that ends the line, lies at or behind `from`.
proof fn lemma_line_end(text: Seq<char>, from: int)
    requires
        0 <= from <= text.len(),
    ensures
        from <= line_end(text, from) <= text.len(),
    decreases text.len() - from,
{
    if from < text.len() && text[from] != '\n' {
        lemma_line_end(text, from + 1);
    }
}

/// The names that the lines of `content` list.
pub fn response_names(content: &str) -> (r: Vec<String>)
    ensures
        texts(r@) == listed_names(content@, 0),
{
    let chars = chars_of(content);
    let n = chars.len();
    let mut names: Vec<String> = Vec::new();
    let mut pos: usize = 0;
    proof {
        assert(texts(names@) + listed_names(content@, 0) =~= listed_names(content@, 0));
    }
    while pos < n
        invariant
            pos <= n,
            n == chars@.len(),
            chars@ == content@,
            listed_names(content@, 0) == texts(names@) + listed_names(content@, pos as int),
        decreases n - pos,
    {
        let ghost text = content@;
        let ghost before = texts(names@);
        // Where the line ends.
        let mut end: usize = pos;
        while end < n && chars[end] != '\n'
            invariant
                pos <= end <= n,
                n == chars@.len(),
                chars@ == text,
                line_end(text, end as int) == line_end(text, pos as int),
            decreases n - end,
        {
            end = end + 1;
        }
        // What is left of it without the white space around it.
        let mut a: usize = pos;
        while a < end && whitespace(chars[a])
            invariant
                pos <= a <= end <= n,
                n == chars@.len(),
                chars@ == text,
                trimmed_start(text, a as int, end as int) == trimmed_start(
                    text,
                    pos as int,
                    end as int,
                ),
            decreases end - a,
        {
            a = a + 1;
        }
        let mut b: usize = end;
        while a < b && whitespace(chars[b - 1])
            invariant
                a <= b <= end <= n,
                n == chars@.len(),
                chars@ == text,
                trimmed_end(text, a as int, b as int) == trimmed_end(text, a as int, end as int),
            decreases b - a,
        {
            b = b - 1;
        }
        proof {
            assert(line_end(text, pos as int) == end);
            assert(trimmed_start(text, pos as int, end as int) == a);
            assert(trimmed_end(text, a as int, end as int) == b);
        }
        if a < b && chars[a] != '#' {
            let name = content.substring_char(a, b).to_owned();
            names.push(name);
            proof {
                let rest = listed_names(text, end + 1);
                assert(texts(names@) =~= before.push(text.subrange(a as int, b as int)));
                assert(before + (seq![text.subrange(a as int, b as int)] + rest) =~= before.push(
                    text.subrange(a as int, b as int),
                ) + rest);
            }
        }
        pos = if end < n {
            end + 1
        } else {
            n
        };
    }
    proof {
        assert(texts(names@) + Seq::<Seq<char>>::empty() =~= texts(names@));
    }
    names
}

/// Tells what a list of arguments asks for.
///
/// A single argument that starts with `@` names a file of names, by the
/// path behind the `@`. Such an argument beside others is refused. Without
/// one the arguments are the names.
pub fn response_request(files: &[String]) -> (r: ResponseRequest)
    ensures
        match r {
            ResponseRequest::File(path) => files@.len() == 1 && names_a_file(files@[0]@) && path@
                == files@[0]@.skip(1),
            ResponseRequest::Mixed => !(files@.len() == 1 && names_a_file(files@[0]@))
                && any_names_a_file(texts(files@)),
            ResponseRequest::Names(names) => !any_names_a_file(texts(files@)) && texts(names@)
                == texts(files@),
        },
{
    let n = files.len();
    if n == 1 {
        let only = files[0].as_str();
        let len = only.unicode_len();
        if len > 0 && only.get_char(0) == '@' {
            let path = only.substring_char(1, len).to_owned();
            proof {
                assert(only@.subrange(1, len as int) =~= only@.skip(1));
            }
            return ResponseRequest::File(path);
        }
    }
    let mut names: Vec<String> = Vec::new();
    let mut i: usize = 0;
    while i < n
        invariant
            i <= n,
            n == files@.len(),
            n == 1 ==> !names_a_file(files@[0]@),
            texts(names@) == texts(files@).take(i as int),
            forall|k: int| 0 <= k < i ==> !names_a_file(#[trigger] texts(files@)[k]),
        decreases n - i,
    {
        let arg = files[i].as_str();
        if arg.unicode_len() > 0 && arg.get_char(0) == '@' {
            proof {
                assert(names_a_file(texts(files@)[i as int]));
            }
            return ResponseRequest::Mixed;
        }
        let ghost before = texts(names@);
        names.push(files[i].clone());
        proof {
            assert(texts(names@) =~= before.push(files@[i as int]@));
            assert(texts(files@).take(i + 1) =~= texts(files@).take(i as int).push(
                files@[i as int]@,
            ));
        }
        i = i + 1;
    }
    proof {
        assert(texts(files@).take(n as int) =~= texts(files@));
    }
    ResponseRequest::Names(names)
}

} // verus!
