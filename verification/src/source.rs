//! Where a configuration comes from: the name that it is stored under, and
//! the notation that its file is written in.

use vstd::prelude::*;
use vstd::string::StrSliceExecFns;
use crate::keys::{compare_keys, KeyOrder};

verus! {

/// The notation of a configuration file.
#[derive(Clone, Copy, Debug, PartialEq, Eq, Structural)]
pub enum DocumentKind {
    Json,
    Yaml,
}

/// The notation that a file extension stands for.
pub open spec fn spec_document_kind(extension: Seq<char>) -> Option<DocumentKind> {
    if extension == "json"@ {
        Some(DocumentKind::Json)
    } else if extension == "yaml"@ || extension == "yml"@ {
        Some(DocumentKind::Yaml)
    } else {
        None
    }
}

/// The notation that a file extension stands for: `json`, `yaml` or `yml`,
/// in lower case. Any other extension stands for none.
pub fn document_kind(extension: &str) -> (kind: Option<DocumentKind>)
    ensures
        kind == spec_document_kind(extension@),
{
    if compare_keys(extension, "json") == KeyOrder::Same {
        Some(DocumentKind::Json)
    } else if compare_keys(extension, "yaml") == KeyOrder::Same || compare_keys(extension, "yml")
        == KeyOrder::Same {
        Some(DocumentKind::Yaml)
    } else {
        None
    }
}

/// A path without what may follow its last component: separators, and
/// components that are a single dot.
pub open spec fn trim_end(path: Seq<char>) -> Seq<char>
    decreases path.len(),
{
    if path.len() >= 1 && path.last() == '/' {
        trim_end(path.drop_last())
    } else if path.len() >= 2 && path[path.len() - 1] == '.' && path[path.len() - 2] == '/' {
        trim_end(path.drop_last())
    } else {
        path
    }
}

/// The position at which the last component of `path` begins: after its last
/// separator, or at 0.
pub open spec fn component_start(path: Seq<char>) -> int
    decreases path.len(),
{
    if path.len() == 0 || path.last() == '/' {
        path.len() as int
    } else {
        component_start(path.drop_last())
    }
}

/// The last component of a path, unless there is none or it is `.` or `..`.
pub open spec fn spec_file_name(path: Seq<char>) -> Option<Seq<char>> {
    let trimmed = trim_end(path);
    let name = trimmed.subrange(component_start(trimmed), trimmed.len() as int);
    if name.len() == 0 || name == seq!['.'] || name == seq!['.', '.'] {
        None
    } else {
        Some(name)
    }
}

/// The name under which the configuration in the file at `path` is stored:
/// the name of the file. A path that ends in separators or in `/.` names the
/// component before them; a path that is empty, that is the root, or that
/// ends in `..` names no file.
pub fn fname_to_cfg_name(path: &str) -> (name: Option<String>)
    ensures
        match name {
            Some(name) => spec_file_name(path@) == Some(name@),
            None => spec_file_name(path@) is None,
        },
{
    let mut end = path.unicode_len();
    assert(path@.subrange(0, end as int) =~= path@);
    loop
        invariant
            end <= path@.len(),
            trim_end(path@) == trim_end(path@.subrange(0, end as int)),
        ensures
            end <= path@.len(),
            trim_end(path@) == path@.subrange(0, end as int),
        decreases end,
    {
        let ghost head = path@.subrange(0, end as int);
        if end >= 1 && path.get_char(end - 1) == '/' {
            assert(head.drop_last() =~= path@.subrange(0, end - 1));
            end -= 1;
        } else if end >= 2 && path.get_char(end - 1) == '.' && path.get_char(end - 2) == '/' {
            assert(head.drop_last() =~= path@.subrange(0, end - 1));
            end -= 1;
        } else {
            break ;
        }
    }
    let ghost trimmed = path@.subrange(0, end as int);
    let mut start = end;
    assert(trimmed.subrange(0, start as int) =~= trimmed);
    while start > 0 && path.get_char(start - 1) != '/'
        invariant
            start <= end <= path@.len(),
            trimmed == path@.subrange(0, end as int),
            component_start(trimmed) == component_start(trimmed.subrange(0, start as int)),
        decreases start,
    {
        assert(trimmed.subrange(0, start as int).drop_last() =~= trimmed.subrange(
            0,
            start - 1,
        ));
        start -= 1;
    }
    assert(component_start(trimmed) == start);
    let ghost name = trimmed.subrange(start as int, end as int);
    assert(name =~= path@.subrange(start as int, end as int));
    let dots = if end - start == 1 {
        path.get_char(start) == '.'
    } else if end - start == 2 {
        path.get_char(start) == '.' && path.get_char(start + 1) == '.'
    } else {
        false
    };
    assert(dots == (name == seq!['.'] || name == seq!['.', '.'])) by {
        assert(name.len() == end - start);
        if end - start == 1 {
            assert(name[0] == path@[start as int]);
            assert(dots ==> name =~= seq!['.']);
            assert(seq!['.'][0] == '.');
        } else if end - start == 2 {
            assert(name[0] == path@[start as int] && name[1] == path@[start + 1]);
            assert(dots ==> name =~= seq!['.', '.']);
            assert(seq!['.', '.'][0] == '.' && seq!['.', '.'][1] == '.');
        } else {
            assert(seq!['.'].len() == 1 && seq!['.', '.'].len() == 2);
        }
    }
    if start == end || dots {
        None
    } else {
        Some(path.substring_char(start, end).to_owned())
    }
}

} // verus!
